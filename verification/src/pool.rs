//! Handing jobs out to worker threads over channels. A `Producer` owns one
//! sending end per worker and deals jobs out to them in turn; `job_ranges`
//! cuts a list of items into jobs.
use vstd::prelude::*;
use std::sync::mpsc::SendError;
use crate::channel::{clone_outbox, open_channel, send_on, Inbox, Outbox};

verus! {

/// Deals jobs out to a fixed list of workers, one after the other.
#[verifier::reject_recursive_types(T)]
pub struct Producer<T> {
    next: usize,
    senders: Vec<Outbox<T>>,
}

impl<T> Producer<T> {
    /// The worker that gets the next job from `send`.
    pub closed spec fn next_index(&self) -> nat {
        self.next as nat
    }

    /// The sending ends, one per worker.
    pub closed spec fn senders(&self) -> Seq<Outbox<T>> {
        self.senders@
    }

    /// Whether the next worker is one of the workers.
    pub open spec fn wf(&self) -> bool {
        self.next_index() < self.senders().len()
    }

    /// What `other` holds after `job` was handed to its sending end `k`,
    /// every other end left as it was in `before`.
    pub open spec fn handed(before: Seq<Outbox<T>>, after: Seq<Outbox<T>>, k: int, job: T) -> bool {
        &&& after.len() == before.len()
        &&& after[k].channel() == before[k].channel()
        &&& after[k].sent() == before[k].sent().push(job)
        &&& forall|i: int| 0 <= i < before.len() && i != k ==> #[trigger] after[i] == before[i]
    }

    /// A producer for `threads` workers, starting with worker 0, and the
    /// receiving ends of their channels (worker `i`'s at position `i`).
    pub fn new(threads: usize) -> (r: (Producer<T>, Vec<Inbox<T>>))
        ensures
            r.0.next_index() == 0,
            r.0.senders().len() == threads,
            r.1.len() == threads,
            forall|i: int| 0 <= i < threads ==> #[trigger] r.0.senders()[i].channel() == r.1@[i].channel(),
            forall|i: int| 0 <= i < threads ==> #[trigger] r.0.senders()[i].sent() == Seq::<T>::empty(),
    {
        let mut txs: Vec<Outbox<T>> = Vec::new();
        let mut rxs: Vec<Inbox<T>> = Vec::new();
        let mut i: usize = 0;
        while i < threads
            invariant
                i <= threads,
                txs.len() == i,
                rxs.len() == i,
                forall|j: int| 0 <= j < i ==> #[trigger] txs@[j].channel() == rxs@[j].channel(),
                forall|j: int| 0 <= j < i ==> #[trigger] txs@[j].sent() == Seq::<T>::empty(),
            decreases threads - i,
        {
            let (tx, rx) = open_channel();
            txs.push(tx);
            rxs.push(rx);
            i = i + 1;
        }
        (Producer { next: 0, senders: txs }, rxs)
    }

    /// Sends `job` to the next worker and moves on to the one after it,
    /// wrapping round after the last.
    pub fn send(&mut self, job: T) -> (r: Result<(), SendError<T>>)
        requires
            old(self).wf(),
        ensures
            Self::handed(old(self).senders(), final(self).senders(), old(self).next_index() as int, job),
            final(self).next_index() == (old(self).next_index() + 1) % old(self).senders().len(),
            final(self).wf(),
    {
        let next: usize = self.next;
        proof {
            let n = self.senders.len() as int;
            let k = next as int + 1;
            assert(k <= n);
            assert(k % n == if k == n { 0 } else { k }) by (nonlinear_arith)
                requires 0 < k <= n;
        }
        self.next = if next == self.senders.len() - 1 {
            0
        } else {
            next + 1
        };
        send_on(&mut self.senders[next], job)
    }

    /// Sends `job` to worker 0, the main thread's worker.
    pub fn send_main(&mut self, job: T) -> (r: Result<(), SendError<T>>)
        requires
            old(self).senders().len() > 0,
        ensures
            Self::handed(old(self).senders(), final(self).senders(), 0, job),
            final(self).next_index() == old(self).next_index(),
    {
        send_on(&mut self.senders[0], job)
    }
}

impl<T> Clone for Producer<T> {
    /// A producer with sending ends on the same channels, at the same turn,
    /// none of which has been handed a job yet.
    fn clone(&self) -> (r: Producer<T>)
        ensures
            r.next_index() == self.next_index(),
            r.senders().len() == self.senders().len(),
            forall|i: int| 0 <= i < self.senders().len() ==> #[trigger] r.senders()[i].channel() == self.senders()[i].channel(),
            forall|i: int| 0 <= i < self.senders().len() ==> #[trigger] r.senders()[i].sent() == Seq::<T>::empty(),
    {
        let mut senders: Vec<Outbox<T>> = Vec::new();
        let mut i: usize = 0;
        while i < self.senders.len()
            invariant
                i <= self.senders.len(),
                senders.len() == i,
                forall|j: int| 0 <= j < i ==> #[trigger] senders@[j].channel() == self.senders@[j].channel(),
                forall|j: int| 0 <= j < i ==> #[trigger] senders@[j].sent() == Seq::<T>::empty(),
            decreases self.senders.len() - i,
        {
            senders.push(clone_outbox(&self.senders[i]));
            i = i + 1;
        }
        Producer { next: self.next, senders: senders }
    }
}

/// Whether `after` is what `send(job)` leaves of `before`, by `send`'s
/// contract.
pub open spec fn sent_in_turn<T>(before: Producer<T>, after: Producer<T>, job: T) -> bool {
    &&& before.wf()
    &&& Producer::<T>::handed(before.senders(), after.senders(), before.next_index() as int, job)
    &&& after.next_index() == (before.next_index() + 1) % before.senders().len()
}

/// After the first `m` sends of a round that started at worker 0, the first
/// `m` workers have each been handed their job and the others nothing.
proof fn lemma_round_prefix<T>(states: Seq<Producer<T>>, jobs: Seq<T>, m: int)
    requires
        states.len() == jobs.len() + 1,
        jobs.len() == states[0].senders().len(),
        states[0].next_index() == 0,
        forall|k: int| 0 <= k < jobs.len() ==> #[trigger] sent_in_turn(states[k], states[k + 1], jobs[k]),
        0 <= m <= jobs.len(),
    ensures
        states[m].senders().len() == jobs.len(),
        m < jobs.len() ==> states[m].next_index() == m,
        forall|i: int| 0 <= i < m ==> #[trigger] states[m].senders()[i].sent()
            == states[0].senders()[i].sent().push(jobs[i]),
        forall|i: int| m <= i < jobs.len() ==> #[trigger] states[m].senders()[i] == states[0].senders()[i],
        forall|i: int| 0 <= i < jobs.len() ==> #[trigger] states[m].senders()[i].channel()
            == states[0].senders()[i].channel(),
    decreases m,
{
    let n = jobs.len() as int;
    if m > 0 {
        let p = m - 1;
        lemma_round_prefix(states, jobs, p);
        assert(sent_in_turn(states[p], states[p + 1], jobs[p]));
        assert(states[p + 1] == states[m]);
        if m < n {
            vstd::arithmetic::div_mod::lemma_small_mod(m as nat, n as nat);
        }
        assert forall|i: int| 0 <= i < m implies #[trigger] states[m].senders()[i].sent()
            == states[0].senders()[i].sent().push(jobs[i]) by {
            if i < p {
                assert(states[m].senders()[i] == states[p].senders()[i]);
            }
        }
        assert forall|i: int| m <= i < n implies #[trigger] states[m].senders()[i]
            == states[0].senders()[i] by {
            assert(states[m].senders()[i] == states[p].senders()[i]);
        }
        assert forall|i: int| 0 <= i < n implies #[trigger] states[m].senders()[i].channel()
            == states[0].senders()[i].channel() by {
            if i != p {
                assert(states[m].senders()[i] == states[p].senders()[i]);
            }
        }
    }
}

/// Starting at worker 0, as many sends as there are workers hand one job to
/// each worker, the `i`-th job to worker `i`, and come back round to worker 0.
pub proof fn lemma_one_round<T>(states: Seq<Producer<T>>, jobs: Seq<T>)
    requires
        states.len() == jobs.len() + 1,
        jobs.len() == states[0].senders().len(),
        states[0].next_index() == 0,
        forall|k: int| 0 <= k < jobs.len() ==> #[trigger] sent_in_turn(states[k], states[k + 1], jobs[k]),
    ensures
        states.last().next_index() == 0,
        states.last().senders().len() == jobs.len(),
        forall|i: int| 0 <= i < jobs.len() ==> #[trigger] states.last().senders()[i].sent()
            == states[0].senders()[i].sent().push(jobs[i]),
        forall|i: int| 0 <= i < jobs.len() ==> #[trigger] states.last().senders()[i].channel()
            == states[0].senders()[i].channel(),
{
    let n = jobs.len() as int;
    lemma_round_prefix(states, jobs, n);
    if n > 0 {
        lemma_round_prefix(states, jobs, n - 1);
        assert(sent_in_turn(states[n - 1], states[(n - 1) + 1], jobs[n - 1]));
        assert(states[(n - 1) + 1] == states.last());
        vstd::arithmetic::div_mod::lemma_mod_self_0(n);
    }
}

/// Job number `i` of a list of `len` items cut into jobs of `per_job`
/// items: the range `[start, end)` it covers.
pub open spec fn job_range(i: int, len: int, per_job: int) -> (int, int) {
    (i * per_job, if (i + 1) * per_job < len { (i + 1) * per_job } else { len })
}

/// How many jobs of `per_job` items cover `len` items.
pub open spec fn job_count(len: int, per_job: int) -> int {
    (len + per_job - 1) / per_job
}

/// The ranges that cut `0..len` into jobs of `per_job` items each, in order;
/// the last job is shorter where `per_job` does not divide `len`.
pub fn job_ranges(len: usize, per_job: usize) -> (r: Vec<(usize, usize)>)
    requires
        per_job > 0,
    ensures
        r.len() == job_count(len as int, per_job as int),
        forall|i: int| 0 <= i < r.len() ==> (r@[i].0 as int, r@[i].1 as int) == #[trigger] job_range(
            i,
            len as int,
            per_job as int,
        ),
{
    let mut r: Vec<(usize, usize)> = Vec::new();
    let mut j: usize = 0;
    assert(r.len() == 0);
    assert(0 * per_job == 0);
    while j < len
        invariant
            per_job > 0,
            j <= len,
            j == if r.len() * per_job < len { r.len() * per_job } else { len as int },
            r.len() > 0 ==> (r.len() - 1) * per_job < len,
            forall|i: int| 0 <= i < r.len() ==> (r@[i].0 as int, r@[i].1 as int) == #[trigger] job_range(
                i,
                len as int,
                per_job as int,
            ),
        decreases len - j,
    {
        let ghost n = r.len() as int;
        let end: usize = if len - j <= per_job { len } else { j + per_job };
        proof {
            assert(j == n * per_job);
            assert((n + 1) * per_job == n * per_job + per_job) by (nonlinear_arith);
        }
        r.push((j, end));
        j = end;
    }
    proof {
        let n = r.len() as int;
        let p = per_job as int;
        let l = len as int;
        assert(l <= n * p);
        if n == 0 {
            assert(l == 0);
            assert((l + p - 1) / p == 0) by (nonlinear_arith)
                requires l == 0, p > 0;
        } else {
            assert((n - 1) * p < l);
            assert((l + p - 1) / p == n) by (nonlinear_arith)
                requires (n - 1) * p < l, l <= n * p, p > 0, n > 0;
        }
    }
    r
}

/// A worker's handling of a job: an answer, or nothing.
pub trait Consumable<T, R> {
    fn process(&mut self, job: T) -> Option<R>;
}

} // verus!
