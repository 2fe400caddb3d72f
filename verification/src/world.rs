//! The bookkeeping of trigger particles: which particles a trigger overlaps.
use vstd::prelude::*;
use vstd::std_specs::iter::IteratorSpec;

verus! {

/// Whether `s` is strictly increasing.
pub open spec fn strictly_sorted(s: Seq<usize>) -> bool {
    forall|i: int, j: int| 0 <= i < j < s.len() ==> s[i] < s[j]
}

/// Whether `s` is increasing.
pub open spec fn sorted(s: Seq<usize>) -> bool {
    forall|i: int, j: int| 0 <= i <= j < s.len() ==> s[i] <= s[j]
}

/// Searches `v` for `x`. On a sorted `v`, `Ok` holds a position of `x`, and
/// `Err` the position where `x` can be inserted keeping `v` sorted.
pub fn binary_search(v: &Vec<usize>, x: usize) -> (r: Result<usize, usize>)
    ensures
        r matches Ok(i) ==> i < v.len() && v@[i as int] == x,
        r matches Err(i) ==> i <= v.len(),
        r is Err && sorted(v@) ==> !v@.contains(x),
        r matches Err(i) ==> (sorted(v@) ==> (forall|j: int| 0 <= j < i ==> v@[j] < x) && (forall|j: int|
            i <= j < v.len() ==> v@[j] > x)),
{
    let mut lo: usize = 0;
    let mut hi: usize = v.len();
    while lo < hi
        invariant
            lo <= hi <= v.len(),
            sorted(v@) ==> forall|j: int| 0 <= j < lo ==> v@[j] < x,
            sorted(v@) ==> forall|j: int| hi <= j < v.len() ==> v@[j] > x,
        decreases hi - lo,
    {
        let mid: usize = lo + (hi - lo) / 2;
        if v[mid] == x {
            return Ok(mid);
        } else if v[mid] < x {
            lo = mid + 1;
        } else {
            hi = mid;
        }
    }
    Err(lo)
}

/// Inserting `x` anywhere adds exactly `x` to the set of elements.
proof fn lemma_insert_to_set(s: Seq<usize>, i: int, x: usize)
    requires
        0 <= i <= s.len(),
    ensures
        s.insert(i, x).to_set() == s.to_set().insert(x),
{
    let t = s.insert(i, x);
    assert forall|y: usize| t.to_set().contains(y) <==> s.to_set().insert(x).contains(y) by {
        if t.contains(y) {
            let k = choose|k: int| 0 <= k < t.len() && t[k] == y;
            if k < i {
                assert(s[k] == y);
            } else if k > i {
                assert(s[k - 1] == y);
            }
        }
        if s.contains(y) {
            let k = choose|k: int| 0 <= k < s.len() && s[k] == y;
            if k < i {
                assert(t[k] == y);
            } else {
                assert(t[k + 1] == y);
            }
        }
        if y == x {
            assert(t[i] == x);
        }
    }
    assert(t.to_set() =~= s.to_set().insert(x));
}

/// The particles a trigger overlapped during a step, by id.
#[derive(Clone, Default, Debug)]
pub struct Triggers {
    pub used: bool,
    pub triggered: Vec<usize>,
}

impl Triggers {
    /// Records that particle `id` overlaps the trigger.
    pub fn add_trigger(&mut self, id: usize)
        ensures
            final(self).used,
            final(self).triggered@ == old(self).triggered@.push(id),
    {
        self.used = true;
        self.triggered.push(id);
    }

    /// Adds the ids of `other` that this list lacks. On a strictly sorted
    /// list the result is the strictly sorted union of both lists; on any
    /// list it holds the ids of both and no others.
    pub fn merge(&mut self, other: &Triggers)
        ensures
            final(self).used,
            final(self).triggered@.to_set() == old(self).triggered@.to_set() + other.triggered@.to_set(),
            strictly_sorted(old(self).triggered@) ==> strictly_sorted(final(self).triggered@),
    {
        self.used = true;
        let mut k: usize = 0;
        while k < other.triggered.len()
            invariant
                k <= other.triggered.len(),
                self.triggered@.to_set() == old(self).triggered@.to_set() + other.triggered@.take(
                    k as int,
                ).to_set(),
                strictly_sorted(old(self).triggered@) ==> strictly_sorted(self.triggered@),
                self.used,
            decreases other.triggered.len() - k,
        {
            let id: usize = other.triggered[k];
            let ghost before = self.triggered@;
            match binary_search(&self.triggered, id) {
                Ok(_) => {
                    proof {
                        assert(before.contains(id));
                    }
                },
                Err(index) => {
                    self.triggered.insert(index, id);
                    proof {
                        lemma_insert_to_set(before, index as int, id);
                        if strictly_sorted(old(self).triggered@) {
                            assert(sorted(before));
                            let after = self.triggered@;
                            assert(after =~= before.insert(index as int, id));
                            assert forall|i: int, j: int| 0 <= i < j < after.len() implies after[i] < after[j] by {
                                if j < index {
                                } else if j == index {
                                } else if i < index {
                                } else if i == index {
                                    assert(after[j] == before[j - 1]);
                                } else {
                                    assert(after[i] == before[i - 1]);
                                    assert(after[j] == before[j - 1]);
                                }
                            }
                        }
                    }
                },
            }
            proof {
                let t0 = other.triggered@.take(k as int);
                let t1 = other.triggered@.take(k + 1);
                assert(t1 =~= t0.push(id));
                t0.lemma_push_to_set_commute(id);
                assert(self.triggered@.to_set() =~= old(self).triggered@.to_set() + t1.to_set());
            }
            k = k + 1;
        }
        proof {
            assert(other.triggered@.take(k as int) =~= other.triggered@);
        }
    }

    /// Iterates over the recorded ids, oldest first.
    pub fn iter(&self) -> (r: std::slice::Iter<'_, usize>)
        ensures
            r.remaining() == self.triggered@.map_values(|x: usize| &x),
    {
        self.triggered.as_slice().iter()
    }

    /// Forgets every recorded id.
    pub fn clear(&mut self)
        ensures
            !final(self).used,
            final(self).triggered@ == Seq::<usize>::empty(),
    {
        self.used = false;
        self.triggered.clear();
    }
}

/// What becomes of a merge job that comes back while a round of merging the
/// workers' answers is under way.
#[derive(Clone, Copy, PartialEq, Eq, Structural, Debug)]
pub enum MergeAction {
    /// The job has been merged in a later round already: it waits for that
    /// round.
    Hold,
    /// The job is sent out again, to merge this round's answers.
    Resend,
}

/// A merge job that last ran in round `job_round` comes back while round
/// `round` is under way and `back` jobs of this round have come back: a job
/// from a later round is held and not counted; any other is sent out again
/// for this round and counted as back.
pub fn merge_step(round: usize, back: usize, job_round: usize) -> (r: (usize, MergeAction))
    requires
        back < usize::MAX,
    ensures
        job_round > round ==> r == (back, MergeAction::Hold),
        job_round <= round ==> r.0 == back + 1 && r.1 == MergeAction::Resend,
{
    if job_round > round {
        (back, MergeAction::Hold)
    } else {
        (back + 1, MergeAction::Resend)
    }
}

} // verus!
