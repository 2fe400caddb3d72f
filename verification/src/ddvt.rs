//! The particle id lists of the broad-phase volume tree. Each volume lists
//! the particles it contains (that no smaller volume contains) and the
//! particles that only overlap it, with triggers kept apart. A volume that
//! grows crowded splits, handing its ids down to four children; four sparse
//! siblings join, handing theirs back. Where a particle goes is decided by
//! its box; here the decisions arrive as plain per-particle tables.
use vstd::prelude::*;

verus! {

/// The index of the last occurrence of `id` in `uncontained`, or
/// `usize::MAX` when `id` does not occur.
pub fn index_in_uncontained(id: usize, uncontained: &Vec<usize>) -> (r: usize)
    ensures
        r == usize::MAX <==> !uncontained@.contains(id),
        r != usize::MAX ==> r < uncontained.len() && uncontained@[r as int] == id
            && forall|j: int| r < j < uncontained.len() ==> uncontained@[j] != id,
{
    let mut i: usize = uncontained.len();
    while i > 0
        invariant
            i <= uncontained.len(),
            forall|j: int| i <= j < uncontained.len() ==> uncontained@[j] != id,
        decreases i,
    {
        i = i - 1;
        if uncontained[i] == id {
            return i;
        }
    }
    proof {
        assert forall|j: int| 0 <= j < uncontained.len() implies uncontained@[j] != id by {}
        if uncontained@.contains(id) {
            let k = choose|k: int| 0 <= k < uncontained.len() && uncontained@[k] == id;
            assert(uncontained@[k] != id);
        }
    }
    usize::MAX
}

/// Removes the last occurrence of `id` from `uncontained`, if any, by moving
/// the list's last element into its place.
pub fn remove_uncontained_from_leaf(id: usize, uncontained: &mut Vec<usize>)
    ensures
        !old(uncontained)@.contains(id) ==> final(uncontained)@ == old(uncontained)@,
        old(uncontained)@.contains(id) ==> exists|i: int|
            0 <= i < old(uncontained).len() && old(uncontained)@[i] == id
                && (forall|j: int| i < j < old(uncontained).len() ==> old(uncontained)@[j] != id)
                && final(uncontained)@ == old(uncontained)@.update(i, old(uncontained)@.last()).drop_last(),
        final(uncontained)@.to_multiset() == old(uncontained)@.to_multiset().remove(id),
{
    let index: usize = index_in_uncontained(id, uncontained);
    if index != usize::MAX {
        let ghost s = uncontained@;
        uncontained.swap_remove(index);
        proof {
            lemma_swap_remove_multiset(s, index as int);
        }
    } else {
        proof {
            assert(!uncontained@.to_multiset().contains(id)) by {
                uncontained@.to_multiset_ensures();
            }
            assert(uncontained@.to_multiset().remove(id) =~= uncontained@.to_multiset());
        }
    }
}

/// Removing position `i` by swapping the last element in removes one
/// occurrence of that element's value.
proof fn lemma_swap_remove_multiset(s: Seq<usize>, i: int)
    requires
        0 <= i < s.len(),
    ensures
        s.update(i, s.last()).drop_last().to_multiset() == s.to_multiset().remove(s[i]),
{
    let t = s.update(i, s.last()).drop_last();
    let u = s.remove(i);
    s.remove_ensures(i);
    if i == s.len() - 1 {
        assert(t =~= u);
    } else {
        assert(t.to_multiset() =~= u.to_multiset()) by {
            lemma_update_last_drop_is_permutation(s, i);
        }
    }
    assert(s.to_multiset().remove(s[i]) =~= u.to_multiset()) by {
        s.to_multiset_ensures();
        lemma_remove_to_multiset(s, i);
    }
}

/// Removing one position of a sequence removes one occurrence from its multiset.
proof fn lemma_remove_to_multiset(s: Seq<usize>, i: int)
    requires
        0 <= i < s.len(),
    ensures
        s.remove(i).to_multiset() == s.to_multiset().remove(s[i]),
    decreases s.len(),
{
    broadcast use vstd::seq_lib::group_to_multiset_ensures;
    if i == s.len() - 1 {
        assert(s.remove(i) =~= s.drop_last());
        assert(s =~= s.drop_last().push(s.last()));
        assert(s.to_multiset() =~= s.drop_last().to_multiset().insert(s.last()));
    } else {
        lemma_remove_to_multiset(s.drop_last(), i);
        assert(s.remove(i) =~= s.drop_last().remove(i).push(s.last()));
        assert(s =~= s.drop_last().push(s.last()));
        assert(s.drop_last()[i] == s[i]);
    }
}

/// Moving the last element into position `i` (dropping the last slot) and
/// removing position `i` outright leave the same multiset.
proof fn lemma_update_last_drop_is_permutation(s: Seq<usize>, i: int)
    requires
        0 <= i < s.len() - 1,
    ensures
        s.update(i, s.last()).drop_last().to_multiset() == s.remove(i).to_multiset(),
{
    broadcast use vstd::seq_lib::group_to_multiset_ensures;
    let t = s.update(i, s.last()).drop_last();
    lemma_remove_to_multiset(t, i);
    lemma_remove_to_multiset(s.drop_last(), i);
    assert(t.remove(i) =~= s.drop_last().remove(i));
    assert(t[i] == s.last());
    assert(s =~= s.drop_last().push(s.last()));
    assert(s.remove(i) =~= s.drop_last().remove(i).push(s.last()));
    assert(t =~= t.remove(i).insert(i, s.last()));
    assert(t.to_multiset() =~= t.remove(i).to_multiset().insert(s.last())) by {
        lemma_remove_to_multiset(t, i);
        assert(t.to_multiset().contains(t[i]));
    }
}

/// Adds `id` at the end of `uncontained`.
pub fn add_uncontained_to_leaf(id: usize, uncontained: &mut Vec<usize>)
    ensures
        final(uncontained)@ == old(uncontained)@.push(id),
{
    uncontained.push(id);
}

/// Most particles a leaf may hold before it splits.
pub const MAX_LEAF_VOLUME: usize = 256;

/// Most particles four sibling leaves may hold together before they join.
pub const MIN_LEAF_VOLUME: usize = 224;

/// The particle ids a volume of the tree keeps: those it contains (held by
/// no smaller volume) and those it only overlaps, with triggers apart.
#[derive(Default)]
pub struct VolumeIds {
    pub contained: Vec<usize>,
    pub contained_triggers: Vec<usize>,
    pub uncontained: Vec<usize>,
    pub uncontained_triggers: Vec<usize>,
}

/// The overlapping list and the ids found contained after folding the
/// overlapping ids `incoming` of joined children, one by one, into a
/// parent that contains `contained` and overlaps `uncontained`: an id the
/// parent contains is reported; an id it already overlaps is dropped; any
/// other id is added to the overlapping list.
pub open spec fn fold_overlapping(contained: Seq<usize>, uncontained: Seq<usize>, incoming: Seq<usize>) -> (
    Seq<usize>,
    Seq<usize>,
)
    decreases incoming.len(),
{
    if incoming.len() == 0 {
        (uncontained, Seq::empty())
    } else {
        let prev = fold_overlapping(contained, uncontained, incoming.drop_last());
        let id = incoming.last();
        if contained.contains(id) {
            (prev.0, prev.1.push(id))
        } else if prev.0.contains(id) {
            prev
        } else {
            (prev.0.push(id), prev.1)
        }
    }
}

/// Folding two lists one after the other is folding their concatenation.
pub proof fn lemma_fold_overlapping_concat(c: Seq<usize>, u: Seq<usize>, a: Seq<usize>, b: Seq<usize>)
    ensures
        fold_overlapping(c, u, a + b) == ({
            let first = fold_overlapping(c, u, a);
            let second = fold_overlapping(c, first.0, b);
            (second.0, first.1 + second.1)
        }),
    decreases b.len(),
{
    if b.len() == 0 {
        assert(a + b =~= a);
        assert(fold_overlapping(c, u, a).1 + Seq::<usize>::empty() =~= fold_overlapping(c, u, a).1);
    } else {
        lemma_fold_overlapping_concat(c, u, a, b.drop_last());
        assert((a + b).drop_last() =~= a + b.drop_last());
        assert((a + b).last() == b.last());
        let first = fold_overlapping(c, u, a);
        let s1 = fold_overlapping(c, first.0, b.drop_last()).1;
        assert((first.1 + s1).push(b.last()) =~= first.1 + s1.push(b.last()));
    }
}

/// Folding overlapping ids keeps a list free of repeats, and the list ends up
/// holding the ids it held and the incoming ids the parent does not contain.
pub proof fn lemma_fold_overlapping_props(c: Seq<usize>, u: Seq<usize>, incoming: Seq<usize>)
    ensures
        u.no_duplicates() ==> fold_overlapping(c, u, incoming).0.no_duplicates(),
        forall|id: usize|
            #[trigger] fold_overlapping(c, u, incoming).0.contains(id) <==> (u.contains(id) || (
            incoming.contains(id) && !c.contains(id))),
        forall|id: usize|
            #[trigger] fold_overlapping(c, u, incoming).1.contains(id) <==> (incoming.contains(id)
                && c.contains(id)),
    decreases incoming.len(),
{
    if incoming.len() > 0 {
        let pre = incoming.drop_last();
        let x = incoming.last();
        lemma_fold_overlapping_props(c, u, pre);
        let prev = fold_overlapping(c, u, pre);
        assert(incoming =~= pre.push(x));
        assert forall|id: usize| incoming.contains(id) <==> (pre.contains(id) || id == x) by {
            if incoming.contains(id) {
                let k = choose|k: int| 0 <= k < incoming.len() && incoming[k] == id;
                if k < incoming.len() - 1 {
                    assert(pre[k] == id);
                }
            }
            if pre.contains(id) {
                let k = choose|k: int| 0 <= k < pre.len() && pre[k] == id;
                assert(incoming[k] == id);
            }
            if id == x {
                assert(incoming[incoming.len() - 1] == id);
            }
        }
        assert forall|s: Seq<usize>, id: usize, y: usize| #[trigger] s.push(y).contains(id) <==> (
        s.contains(id) || id == y) by {
            if s.push(y).contains(id) {
                let k = choose|k: int| 0 <= k < s.push(y).len() && s.push(y)[k] == id;
                if k < s.len() {
                    assert(s[k] == id);
                }
            }
            if s.contains(id) {
                let k = choose|k: int| 0 <= k < s.len() && s[k] == id;
                assert(s.push(y)[k] == id);
            }
            if id == y {
                assert(s.push(y)[s.len() as int] == id);
            }
        }
    }
}

/// Folds the overlapping ids `incoming` into `uncontained` (see
/// `fold_overlapping`), appending the ids found in `contained` to `marked`.
fn absorb_overlapping(
    contained: &Vec<usize>,
    uncontained: &mut Vec<usize>,
    incoming: &Vec<usize>,
    marked: &mut Vec<usize>,
)
    ensures
        final(uncontained)@ == fold_overlapping(contained@, old(uncontained)@, incoming@).0,
        final(marked)@ == old(marked)@ + fold_overlapping(contained@, old(uncontained)@, incoming@).1,
{
    let mut k: usize = 0;
    while k < incoming.len()
        invariant
            k <= incoming.len(),
            uncontained@ == fold_overlapping(contained@, old(uncontained)@, incoming@.take(k as int)).0,
            marked@ == old(marked)@ + fold_overlapping(contained@, old(uncontained)@, incoming@.take(k as int)).1,
        decreases incoming.len() - k,
    {
        let id: usize = incoming[k];
        let ghost pre = incoming@.take(k as int);
        let ghost prev = fold_overlapping(contained@, old(uncontained)@, pre);
        proof {
            assert(incoming@.take(k + 1).drop_last() =~= pre);
            assert(incoming@.take(k + 1).last() == id);
        }
        if index_in_uncontained(id, contained) != usize::MAX {
            marked.push(id);
            proof {
                assert(marked@ =~= old(marked)@ + prev.1.push(id));
            }
        } else if index_in_uncontained(id, uncontained) == usize::MAX {
            uncontained.push(id);
        }
        k = k + 1;
    }
    proof {
        assert(incoming@.take(k as int) =~= incoming@);
    }
}

/// Appends `more` to `ids`.
fn append_ids(ids: &mut Vec<usize>, more: &Vec<usize>)
    ensures
        final(ids)@ == old(ids)@ + more@,
{
    let mut k: usize = 0;
    while k < more.len()
        invariant
            k <= more.len(),
            ids@ == old(ids)@ + more@.take(k as int),
        decreases more.len() - k,
    {
        ids.push(more[k]);
        proof {
            assert(more@.take(k + 1) =~= more@.take(k as int).push(more@[k as int]));
        }
        k = k + 1;
    }
    proof {
        assert(more@.take(k as int) =~= more@);
    }
}

/// The four lists of one kind of a group of four volumes, one after the
/// other.
pub open spec fn chained(a: Seq<usize>, b: Seq<usize>, c: Seq<usize>, d: Seq<usize>) -> Seq<usize> {
    a + b + c + d
}

impl VolumeIds {
    /// How many ids the volume keeps, of all four kinds.
    pub fn len(&self) -> (r: usize)
        requires
            self.contained@.len() + self.uncontained@.len() + self.contained_triggers@.len()
                + self.uncontained_triggers@.len() <= usize::MAX,
        ensures
            r == self.contained@.len() + self.uncontained@.len() + self.contained_triggers@.len()
                + self.uncontained_triggers@.len(),
    {
        self.contained.len() + self.uncontained.len() + self.contained_triggers.len()
            + self.uncontained_triggers.len()
    }

    /// Whether four sibling volumes together keep few enough ids to be joined
    /// into their parent: at most `MIN_LEAF_VOLUME`.
    pub fn joinable(children: (&VolumeIds, &VolumeIds, &VolumeIds, &VolumeIds)) -> (r: bool)
        ensures
            r == (ids_count(*children.0) + ids_count(*children.1) + ids_count(*children.2)
                + ids_count(*children.3) <= MIN_LEAF_VOLUME),
    {
        let (c0, c1, c2, c3) = children;
        let total: u128 = c0.count_wide() + c1.count_wide() + c2.count_wide() + c3.count_wide();
        total <= MIN_LEAF_VOLUME as u128
    }

    /// How many ids the volume keeps, in a type wide enough for any count.
    fn count_wide(&self) -> (r: u128)
        ensures
            r == ids_count(*self),
            r <= 4 * (usize::MAX as int),
    {
        self.contained.len() as u128 + self.uncontained.len() as u128
            + self.contained_triggers.len() as u128 + self.uncontained_triggers.len() as u128
    }

    /// Hands this volume's ids down to four new children. `homes[id]` names
    /// the first child whose box contains particle `id`, if any; that child
    /// takes the id over, the others stay. Every id left here and every
    /// overlapping id is then added to the overlapping lists of the children
    /// it overlaps (`overlaps[id]`, one flag per child), and this volume's
    /// overlapping lists are emptied; triggers are kept apart throughout.
    /// Returns the ids now spread over several leaves: the contained ids left
    /// here, the former overlapping ids, then the same for triggers.
    pub fn split_children(
        &mut self,
        children: &mut (VolumeIds, VolumeIds, VolumeIds, VolumeIds),
        homes: &Vec<Option<usize>>,
        overlaps: &Vec<(bool, bool, bool, bool)>,
    ) -> (spread: Vec<usize>)
        requires
            ids_below(old(self).contained@, homes@.len()),
            ids_below(old(self).contained_triggers@, homes@.len()),
            ids_below(old(self).contained@, overlaps@.len()),
            ids_below(old(self).contained_triggers@, overlaps@.len()),
            ids_below(old(self).uncontained@, overlaps@.len()),
            ids_below(old(self).uncontained_triggers@, overlaps@.len()),
        ensures
            final(self).contained@ == homeless(old(self).contained@, homes@),
            final(self).contained_triggers@ == homeless(old(self).contained_triggers@, homes@),
            final(self).uncontained@.len() == 0,
            final(self).uncontained_triggers@.len() == 0,
            spread@ == final(self).contained@ + old(self).uncontained@ + final(self).contained_triggers@
                + old(self).uncontained_triggers@,
            split_child(old(children).0, final(children).0, *old(self), homes@, overlaps@, 0),
            split_child(old(children).1, final(children).1, *old(self), homes@, overlaps@, 1),
            split_child(old(children).2, final(children).2, *old(self), homes@, overlaps@, 2),
            split_child(old(children).3, final(children).3, *old(self), homes@, overlaps@, 3),
    {
        let kept = distribute_contained(
            &self.contained,
            homes,
            &mut children.0.contained,
            &mut children.1.contained,
            &mut children.2.contained,
            &mut children.3.contained,
        );
        let kept_triggers = distribute_contained(
            &self.contained_triggers,
            homes,
            &mut children.0.contained_triggers,
            &mut children.1.contained_triggers,
            &mut children.2.contained_triggers,
            &mut children.3.contained_triggers,
        );
        self.contained = kept;
        self.contained_triggers = kept_triggers;
        proof {
            assert forall|k: int| 0 <= k < self.contained@.len() implies (self.contained@[k] as nat)
                < overlaps@.len() by {
                assert(self.contained@.contains(self.contained@[k]));
                old(self).contained@.lemma_filter_contains_rev(no_home(homes@), self.contained@[k]);
            }
            assert forall|k: int| 0 <= k < self.contained_triggers@.len() implies (
            self.contained_triggers@[k] as nat) < overlaps@.len() by {
                assert(self.contained_triggers@.contains(self.contained_triggers@[k]));
                old(self).contained_triggers@.lemma_filter_contains_rev(
                    no_home(homes@),
                    self.contained_triggers@[k],
                );
            }
        }
        distribute_overlapping(
            &self.contained,
            overlaps,
            &mut children.0.uncontained,
            &mut children.1.uncontained,
            &mut children.2.uncontained,
            &mut children.3.uncontained,
        );
        distribute_overlapping(
            &self.uncontained,
            overlaps,
            &mut children.0.uncontained,
            &mut children.1.uncontained,
            &mut children.2.uncontained,
            &mut children.3.uncontained,
        );
        distribute_overlapping(
            &self.contained_triggers,
            overlaps,
            &mut children.0.uncontained_triggers,
            &mut children.1.uncontained_triggers,
            &mut children.2.uncontained_triggers,
            &mut children.3.uncontained_triggers,
        );
        distribute_overlapping(
            &self.uncontained_triggers,
            overlaps,
            &mut children.0.uncontained_triggers,
            &mut children.1.uncontained_triggers,
            &mut children.2.uncontained_triggers,
            &mut children.3.uncontained_triggers,
        );
        let mut spread: Vec<usize> = Vec::new();
        append_ids(&mut spread, &self.contained);
        append_ids(&mut spread, &self.uncontained);
        append_ids(&mut spread, &self.contained_triggers);
        append_ids(&mut spread, &self.uncontained_triggers);
        self.uncontained.clear();
        self.uncontained_triggers.clear();
        proof {
            assert(spread@ =~= self.contained@ + old(self).uncontained@ + self.contained_triggers@
                + old(self).uncontained_triggers@);
        }
        spread
    }

    /// Takes in the ids of four children that are being joined into this
    /// volume: their contained ids are appended to this volume's, and their
    /// overlapping ids are folded in (see `fold_overlapping`), triggers
    /// apart. Returns the overlapping ids this volume contains, which are no
    /// longer spread over several leaves: first the particles', then the
    /// triggers'.
    pub fn join_children(&mut self, children: (&VolumeIds, &VolumeIds, &VolumeIds, &VolumeIds)) -> (marked: Vec<usize>)
        ensures
            ({
                let (c0, c1, c2, c3) = children;
                let plain = fold_overlapping(
                    old(self).contained@,
                    old(self).uncontained@,
                    chained(c0.uncontained@, c1.uncontained@, c2.uncontained@, c3.uncontained@),
                );
                let triggers = fold_overlapping(
                    old(self).contained_triggers@,
                    old(self).uncontained_triggers@,
                    chained(
                        c0.uncontained_triggers@,
                        c1.uncontained_triggers@,
                        c2.uncontained_triggers@,
                        c3.uncontained_triggers@,
                    ),
                );
                &&& final(self).uncontained@ == plain.0
                &&& final(self).uncontained_triggers@ == triggers.0
                &&& marked@ == plain.1 + triggers.1
                &&& final(self).contained@ == old(self).contained@ + chained(
                    c0.contained@,
                    c1.contained@,
                    c2.contained@,
                    c3.contained@,
                )
                &&& final(self).contained_triggers@ == old(self).contained_triggers@ + chained(
                    c0.contained_triggers@,
                    c1.contained_triggers@,
                    c2.contained_triggers@,
                    c3.contained_triggers@,
                )
            }),
    {
        let (c0, c1, c2, c3) = children;
        let mut marked: Vec<usize> = Vec::new();
        let ghost u0 = self.uncontained@;
        let ghost con = self.contained@;
        absorb_overlapping(&self.contained, &mut self.uncontained, &c0.uncontained, &mut marked);
        absorb_overlapping(&self.contained, &mut self.uncontained, &c1.uncontained, &mut marked);
        absorb_overlapping(&self.contained, &mut self.uncontained, &c2.uncontained, &mut marked);
        absorb_overlapping(&self.contained, &mut self.uncontained, &c3.uncontained, &mut marked);
        proof {
            let a = c0.uncontained@;
            let b = c1.uncontained@;
            let c = c2.uncontained@;
            let d = c3.uncontained@;
            lemma_fold_overlapping_concat(con, u0, a, b);
            lemma_fold_overlapping_concat(con, u0, a + b, c);
            lemma_fold_overlapping_concat(con, u0, a + b + c, d);
            let f1 = fold_overlapping(con, u0, a);
            let f2 = fold_overlapping(con, f1.0, b);
            let f3 = fold_overlapping(con, f2.0, c);
            let f4 = fold_overlapping(con, f3.0, d);
            assert(Seq::<usize>::empty() + f1.1 + f2.1 + f3.1 + f4.1 =~= fold_overlapping(
                con,
                u0,
                a + b + c + d,
            ).1);
        }
        append_ids(&mut self.contained, &c0.contained);
        append_ids(&mut self.contained, &c1.contained);
        append_ids(&mut self.contained, &c2.contained);
        append_ids(&mut self.contained, &c3.contained);
        let ghost plain_marked = marked@;
        let ghost ut0 = self.uncontained_triggers@;
        let ghost cont = self.contained_triggers@;
        absorb_overlapping(&self.contained_triggers, &mut self.uncontained_triggers, &c0.uncontained_triggers, &mut marked);
        absorb_overlapping(&self.contained_triggers, &mut self.uncontained_triggers, &c1.uncontained_triggers, &mut marked);
        absorb_overlapping(&self.contained_triggers, &mut self.uncontained_triggers, &c2.uncontained_triggers, &mut marked);
        absorb_overlapping(&self.contained_triggers, &mut self.uncontained_triggers, &c3.uncontained_triggers, &mut marked);
        proof {
            let a = c0.uncontained_triggers@;
            let b = c1.uncontained_triggers@;
            let c = c2.uncontained_triggers@;
            let d = c3.uncontained_triggers@;
            lemma_fold_overlapping_concat(cont, ut0, a, b);
            lemma_fold_overlapping_concat(cont, ut0, a + b, c);
            lemma_fold_overlapping_concat(cont, ut0, a + b + c, d);
            let f1 = fold_overlapping(cont, ut0, a);
            let f2 = fold_overlapping(cont, f1.0, b);
            let f3 = fold_overlapping(cont, f2.0, c);
            let f4 = fold_overlapping(cont, f3.0, d);
            assert(plain_marked + f1.1 + f2.1 + f3.1 + f4.1 =~= plain_marked + fold_overlapping(
                cont,
                ut0,
                a + b + c + d,
            ).1);
        }
        append_ids(&mut self.contained_triggers, &c0.contained_triggers);
        append_ids(&mut self.contained_triggers, &c1.contained_triggers);
        append_ids(&mut self.contained_triggers, &c2.contained_triggers);
        append_ids(&mut self.contained_triggers, &c3.contained_triggers);
        proof {
            assert(self.contained@ =~= con + chained(c0.contained@, c1.contained@, c2.contained@, c3.contained@));
            assert(self.contained_triggers@ =~= cont + chained(
                c0.contained_triggers@,
                c1.contained_triggers@,
                c2.contained_triggers@,
                c3.contained_triggers@,
            ));
        }
        marked
    }
}

/// Whether an id's home is child `i`.
pub open spec fn at_home(homes: Seq<Option<usize>>, i: usize) -> spec_fn(usize) -> bool {
    |id: usize| homes[id as int] == Some(i)
}

/// Whether an id has no home among the four children.
pub open spec fn no_home(homes: Seq<Option<usize>>) -> spec_fn(usize) -> bool {
    |id: usize| !(homes[id as int] == Some(0usize) || homes[id as int] == Some(1usize)
        || homes[id as int] == Some(2usize) || homes[id as int] == Some(3usize))
}

/// Whether an id overlaps child `i`.
pub open spec fn overlaps_child(overlaps: Seq<(bool, bool, bool, bool)>, i: int) -> spec_fn(usize) -> bool {
    |id: usize| overlap_flag(overlaps[id as int], i)
}

/// The ids of `ids` whose home is child `i` (per `homes`, indexed by id).
pub open spec fn homed_at(ids: Seq<usize>, homes: Seq<Option<usize>>, i: usize) -> Seq<usize> {
    ids.filter(at_home(homes, i))
}

/// The ids of `ids` with no home among the four children.
pub open spec fn homeless(ids: Seq<usize>, homes: Seq<Option<usize>>) -> Seq<usize> {
    ids.filter(no_home(homes))
}

/// The ids of `ids` that overlap child `i` (per `overlaps`, indexed by id).
pub open spec fn overlapping(ids: Seq<usize>, overlaps: Seq<(bool, bool, bool, bool)>, i: int) -> Seq<usize> {
    ids.filter(overlaps_child(overlaps, i))
}

/// Flag number `i` of four.
pub open spec fn overlap_flag(f: (bool, bool, bool, bool), i: int) -> bool {
    if i == 0 {
        f.0
    } else if i == 1 {
        f.1
    } else if i == 2 {
        f.2
    } else {
        f.3
    }
}

/// Whether every id of `ids` indexes `table`.
pub open spec fn ids_below(ids: Seq<usize>, n: nat) -> bool {
    forall|k: int| 0 <= k < ids.len() ==> (ids[k] as nat) < n
}

/// Moves each id of `ids` with a home among the children to that child's
/// list; the others, in order, are the result.
fn distribute_contained(
    ids: &Vec<usize>,
    homes: &Vec<Option<usize>>,
    c0: &mut Vec<usize>,
    c1: &mut Vec<usize>,
    c2: &mut Vec<usize>,
    c3: &mut Vec<usize>,
) -> (kept: Vec<usize>)
    requires
        ids_below(ids@, homes@.len()),
    ensures
        kept@ == homeless(ids@, homes@),
        final(c0)@ == old(c0)@ + homed_at(ids@, homes@, 0),
        final(c1)@ == old(c1)@ + homed_at(ids@, homes@, 1),
        final(c2)@ == old(c2)@ + homed_at(ids@, homes@, 2),
        final(c3)@ == old(c3)@ + homed_at(ids@, homes@, 3),
{
    let mut kept: Vec<usize> = Vec::new();
    let mut k: usize = 0;
    while k < ids.len()
        invariant
            k <= ids.len(),
            ids_below(ids@, homes@.len()),
            kept@ == homeless(ids@.take(k as int), homes@),
            c0@ == old(c0)@ + homed_at(ids@.take(k as int), homes@, 0),
            c1@ == old(c1)@ + homed_at(ids@.take(k as int), homes@, 1),
            c2@ == old(c2)@ + homed_at(ids@.take(k as int), homes@, 2),
            c3@ == old(c3)@ + homed_at(ids@.take(k as int), homes@, 3),
        decreases ids.len() - k,
    {
        let id: usize = ids[k];
        let ghost pre = ids@.take(k as int);
        proof {
            assert(ids@.take(k + 1) =~= pre.push(id));
            pre.lemma_filter_push(id, at_home(homes@, 0));
            pre.lemma_filter_push(id, at_home(homes@, 1));
            pre.lemma_filter_push(id, at_home(homes@, 2));
            pre.lemma_filter_push(id, at_home(homes@, 3));
            pre.lemma_filter_push(id, no_home(homes@));
        }
        match homes[id] {
            Some(0) => {
                c0.push(id);
            },
            Some(1) => {
                c1.push(id);
            },
            Some(2) => {
                c2.push(id);
            },
            Some(3) => {
                c3.push(id);
            },
            _ => {
                kept.push(id);
            },
        }
        proof {
            assert(c0@ =~= old(c0)@ + homed_at(ids@.take(k + 1), homes@, 0));
            assert(c1@ =~= old(c1)@ + homed_at(ids@.take(k + 1), homes@, 1));
            assert(c2@ =~= old(c2)@ + homed_at(ids@.take(k + 1), homes@, 2));
            assert(c3@ =~= old(c3)@ + homed_at(ids@.take(k + 1), homes@, 3));
        }
        k = k + 1;
    }
    proof {
        assert(ids@.take(k as int) =~= ids@);
    }
    kept
}

/// Adds each id of `ids` to the lists of the children it overlaps.
fn distribute_overlapping(
    ids: &Vec<usize>,
    overlaps: &Vec<(bool, bool, bool, bool)>,
    c0: &mut Vec<usize>,
    c1: &mut Vec<usize>,
    c2: &mut Vec<usize>,
    c3: &mut Vec<usize>,
)
    requires
        ids_below(ids@, overlaps@.len()),
    ensures
        final(c0)@ == old(c0)@ + overlapping(ids@, overlaps@, 0),
        final(c1)@ == old(c1)@ + overlapping(ids@, overlaps@, 1),
        final(c2)@ == old(c2)@ + overlapping(ids@, overlaps@, 2),
        final(c3)@ == old(c3)@ + overlapping(ids@, overlaps@, 3),
{
    let mut k: usize = 0;
    while k < ids.len()
        invariant
            k <= ids.len(),
            ids_below(ids@, overlaps@.len()),
            c0@ == old(c0)@ + overlapping(ids@.take(k as int), overlaps@, 0),
            c1@ == old(c1)@ + overlapping(ids@.take(k as int), overlaps@, 1),
            c2@ == old(c2)@ + overlapping(ids@.take(k as int), overlaps@, 2),
            c3@ == old(c3)@ + overlapping(ids@.take(k as int), overlaps@, 3),
        decreases ids.len() - k,
    {
        let id: usize = ids[k];
        let flags = overlaps[id];
        proof {
            let pre = ids@.take(k as int);
            assert(ids@.take(k + 1) =~= pre.push(id));
            pre.lemma_filter_push(id, overlaps_child(overlaps@, 0));
            pre.lemma_filter_push(id, overlaps_child(overlaps@, 1));
            pre.lemma_filter_push(id, overlaps_child(overlaps@, 2));
            pre.lemma_filter_push(id, overlaps_child(overlaps@, 3));
        }
        if flags.0 {
            c0.push(id);
        }
        if flags.1 {
            c1.push(id);
        }
        if flags.2 {
            c2.push(id);
        }
        if flags.3 {
            c3.push(id);
        }
        proof {
            assert(c0@ =~= old(c0)@ + overlapping(ids@.take(k + 1), overlaps@, 0));
            assert(c1@ =~= old(c1)@ + overlapping(ids@.take(k + 1), overlaps@, 1));
            assert(c2@ =~= old(c2)@ + overlapping(ids@.take(k + 1), overlaps@, 2));
            assert(c3@ =~= old(c3)@ + overlapping(ids@.take(k + 1), overlaps@, 3));
        }
        k = k + 1;
    }
    proof {
        assert(ids@.take(k as int) =~= ids@);
    }
}

/// How many ids a volume keeps, of all four kinds.
pub open spec fn ids_count(v: VolumeIds) -> int {
    (v.contained@.len() + v.uncontained@.len() + v.contained_triggers@.len()
        + v.uncontained_triggers@.len()) as int
}

/// What child `i` holds after its parent `parent` split (see
/// `VolumeIds::split_children`), given what it held before.
pub open spec fn split_child(
    before: VolumeIds,
    after: VolumeIds,
    parent: VolumeIds,
    homes: Seq<Option<usize>>,
    overlaps: Seq<(bool, bool, bool, bool)>,
    i: usize,
) -> bool {
    let kept = homeless(parent.contained@, homes);
    let kept_triggers = homeless(parent.contained_triggers@, homes);
    &&& after.contained@ == before.contained@ + homed_at(parent.contained@, homes, i)
    &&& after.contained_triggers@ == before.contained_triggers@ + homed_at(
        parent.contained_triggers@,
        homes,
        i,
    )
    &&& after.uncontained@ == before.uncontained@ + overlapping(kept, overlaps, i as int)
        + overlapping(parent.uncontained@, overlaps, i as int)
    &&& after.uncontained_triggers@ == before.uncontained_triggers@ + overlapping(
        kept_triggers,
        overlaps,
        i as int,
    ) + overlapping(parent.uncontained_triggers@, overlaps, i as int)
}

/// The ids four children hold together, in child order.
pub open spec fn all_homed(ids: Seq<usize>, homes: Seq<Option<usize>>) -> Seq<usize> {
    homed_at(ids, homes, 0) + homed_at(ids, homes, 1) + homed_at(ids, homes, 2) + homed_at(
        ids,
        homes,
        3,
    )
}

/// Splitting a list among no home and the four children's homes loses and
/// invents no id: together the parts hold what the list held.
pub proof fn lemma_partition_by_home(ids: Seq<usize>, homes: Seq<Option<usize>>)
    ensures
        (homeless(ids, homes) + all_homed(ids, homes)).to_multiset() == ids.to_multiset(),
    decreases ids.len(),
{
    broadcast use vstd::seq_lib::group_to_multiset_ensures;
    if ids.len() == 0 {
        assert(homeless(ids, homes) =~= Seq::<usize>::empty());
        assert(all_homed(ids, homes) =~= Seq::<usize>::empty());
        assert((homeless(ids, homes) + all_homed(ids, homes)) =~= ids);
    } else {
        let pre = ids.drop_last();
        let x = ids.last();
        lemma_partition_by_home(pre, homes);
        assert(ids =~= pre.push(x));
        pre.lemma_filter_push(x, no_home(homes));
        pre.lemma_filter_push(x, at_home(homes, 0));
        pre.lemma_filter_push(x, at_home(homes, 1));
        pre.lemma_filter_push(x, at_home(homes, 2));
        pre.lemma_filter_push(x, at_home(homes, 3));
        let h = homeless(pre, homes);
        let a0 = homed_at(pre, homes, 0);
        let a1 = homed_at(pre, homes, 1);
        let a2 = homed_at(pre, homes, 2);
        let a3 = homed_at(pre, homes, 3);
        vstd::seq_lib::lemma_multiset_commutative(h, a0 + a1 + a2 + a3);
        lemma_multiset_concat5(h, a0, a1, a2, a3);
        if homes[x as int] == Some(0usize) {
            lemma_multiset_concat5(h, a0.push(x), a1, a2, a3);
            assert(a0.push(x).to_multiset() =~= a0.to_multiset().insert(x));
        } else if homes[x as int] == Some(1usize) {
            lemma_multiset_concat5(h, a0, a1.push(x), a2, a3);
            assert(a1.push(x).to_multiset() =~= a1.to_multiset().insert(x));
        } else if homes[x as int] == Some(2usize) {
            lemma_multiset_concat5(h, a0, a1, a2.push(x), a3);
            assert(a2.push(x).to_multiset() =~= a2.to_multiset().insert(x));
        } else if homes[x as int] == Some(3usize) {
            lemma_multiset_concat5(h, a0, a1, a2, a3.push(x));
            assert(a3.push(x).to_multiset() =~= a3.to_multiset().insert(x));
        } else {
            lemma_multiset_concat5(h.push(x), a0, a1, a2, a3);
            assert(h.push(x).to_multiset() =~= h.to_multiset().insert(x));
        }
        assert(ids.to_multiset() =~= pre.to_multiset().insert(x));
    }
}

/// The multiset of five concatenated lists is the sum of theirs.
proof fn lemma_multiset_concat5(a: Seq<usize>, b: Seq<usize>, c: Seq<usize>, d: Seq<usize>, e: Seq<usize>)
    ensures
        (a + (b + c + d + e)).to_multiset() == a.to_multiset().add(b.to_multiset()).add(
            c.to_multiset(),
        ).add(d.to_multiset()).add(e.to_multiset()),
{
    vstd::seq_lib::lemma_multiset_commutative(a, b + c + d + e);
    vstd::seq_lib::lemma_multiset_commutative(b + c + d, e);
    vstd::seq_lib::lemma_multiset_commutative(b + c, d);
    vstd::seq_lib::lemma_multiset_commutative(b, c);
    assert(a.to_multiset().add(b.to_multiset().add(c.to_multiset()).add(d.to_multiset()).add(
        e.to_multiset(),
    )) =~= a.to_multiset().add(b.to_multiset()).add(c.to_multiset()).add(d.to_multiset()).add(
        e.to_multiset(),
    ));
}

/// An id is in a filtered list exactly when it is in the list and passes.
proof fn lemma_filter_contains_iff(s: Seq<usize>, p: spec_fn(usize) -> bool, x: usize)
    ensures
        s.filter(p).contains(x) <==> (s.contains(x) && p(x)),
{
    if s.filter(p).contains(x) {
        s.lemma_filter_contains_rev(p, x);
        let k = choose|k: int| 0 <= k < s.filter(p).len() && s.filter(p)[k] == x;
        s.lemma_filter_pred(p, k);
    }
    if s.contains(x) && p(x) {
        let k = choose|k: int| 0 <= k < s.len() && s[k] == x;
        s.lemma_filter_contains(p, k);
    }
}

/// Whether the overlap flags of some id name at least one child.
pub open spec fn overlaps_some(f: (bool, bool, bool, bool)) -> bool {
    f.0 || f.1 || f.2 || f.3
}

/// The overlapping lists the four children hold after a split (started
/// from empty lists), in child order.
pub open spec fn split_overlapping(kept: Seq<usize>, uncontained: Seq<usize>, overlaps: Seq<(bool, bool, bool, bool)>) -> Seq<usize> {
    (overlapping(kept, overlaps, 0) + overlapping(uncontained, overlaps, 0)) + (overlapping(
        kept,
        overlaps,
        1,
    ) + overlapping(uncontained, overlaps, 1)) + (overlapping(kept, overlaps, 2) + overlapping(
        uncontained,
        overlaps,
        2,
    )) + (overlapping(kept, overlaps, 3) + overlapping(uncontained, overlaps, 3))
}

/// One kind of list of a volume, split among four empty children and
/// joined straight back: the contained ids come back (in another order),
/// and so do the overlapping ids, each once, when no id is both contained
/// and overlapping and every overlapping id overlaps some child.
pub proof fn lemma_join_undoes_split(
    contained: Seq<usize>,
    uncontained: Seq<usize>,
    homes: Seq<Option<usize>>,
    overlaps: Seq<(bool, bool, bool, bool)>,
)
    requires
        ids_below(contained, homes.len()),
        ids_below(contained, overlaps.len()),
        ids_below(uncontained, overlaps.len()),
        forall|id: usize| uncontained.contains(id) ==> !contained.contains(id),
        forall|id: usize| uncontained.contains(id) ==> overlaps_some(#[trigger] overlaps[id as int]),
    ensures
        ({
            let kept = homeless(contained, homes);
            let joined = fold_overlapping(kept, Seq::empty(), split_overlapping(kept, uncontained, overlaps));
            &&& (kept + all_homed(contained, homes)).to_multiset() == contained.to_multiset()
            &&& forall|id: usize| #[trigger] joined.0.contains(id) <==> uncontained.contains(id)
            &&& joined.0.no_duplicates()
        }),
{
    broadcast use vstd::seq::group_seq_axioms;
    broadcast use vstd::seq_lib::group_seq_properties;
    let kept = homeless(contained, homes);
    let incoming = split_overlapping(kept, uncontained, overlaps);
    lemma_partition_by_home(contained, homes);
    lemma_fold_overlapping_props(kept, Seq::empty(), incoming);
    assert(Seq::<usize>::empty().no_duplicates());
    assert forall|id: usize| #[trigger] fold_overlapping(kept, Seq::empty(), incoming).0.contains(id)
        <==> uncontained.contains(id) by {
        lemma_filter_contains_iff(contained, no_home(homes), id);
        lemma_filter_contains_iff(kept, overlaps_child(overlaps, 0), id);
        lemma_filter_contains_iff(kept, overlaps_child(overlaps, 1), id);
        lemma_filter_contains_iff(kept, overlaps_child(overlaps, 2), id);
        lemma_filter_contains_iff(kept, overlaps_child(overlaps, 3), id);
        lemma_filter_contains_iff(uncontained, overlaps_child(overlaps, 0), id);
        lemma_filter_contains_iff(uncontained, overlaps_child(overlaps, 1), id);
        lemma_filter_contains_iff(uncontained, overlaps_child(overlaps, 2), id);
        lemma_filter_contains_iff(uncontained, overlaps_child(overlaps, 3), id);
        assert(!Seq::<usize>::empty().contains(id));
        if uncontained.contains(id) {
            assert(overlaps_some(overlaps[id as int]));
            assert(!kept.contains(id));
        }
    }
}

/// Taking an id back out of a leaf list right after adding it leaves the
/// list holding what it held before (as a multiset).
pub proof fn lemma_remove_undoes_add(ids: Seq<usize>, id: usize)
    ensures
        ids.push(id).to_multiset().remove(id) == ids.to_multiset(),
{
    broadcast use vstd::seq_lib::group_to_multiset_ensures;
    assert(ids.push(id).to_multiset().remove(id) =~= ids.to_multiset());
}

/// What becomes of an id a volume holds as contained when the volume is
/// brought up to date with the particle's new box.
#[derive(Clone, Copy, PartialEq, Eq, Structural, Debug)]
pub enum Fate {
    /// The volume still contains the box and no child of it does.
    Stays,
    /// The volume no longer contains the box.
    Leaves,
    /// The volume has children and one of them contains the box.
    Deeper,
}

/// The fate of a contained id, from whether the volume contains the new box
/// (`inside`), whether the volume has children (`branch`) and whether one of
/// them contains the box (`in_child`).
pub open spec fn spec_fate(inside: bool, branch: bool, in_child: bool) -> Fate {
    if !inside {
        Fate::Leaves
    } else if branch && in_child {
        Fate::Deeper
    } else {
        Fate::Stays
    }
}

/// See `spec_fate`.
pub fn fate_of(inside: bool, branch: bool, in_child: bool) -> (r: Fate)
    ensures
        r == spec_fate(inside, branch, in_child),
{
    if !inside {
        Fate::Leaves
    } else if branch && in_child {
        Fate::Deeper
    } else {
        Fate::Stays
    }
}

/// Whether an id's fate (per `fate`, indexed by id) is `f`.
pub open spec fn has_fate(fate: Seq<Fate>, f: Fate) -> spec_fn(usize) -> bool {
    |id: usize| fate[id as int] == f
}

/// Keeps in `ids` the ids that stay, in order, and hands back the ids that
/// leave and those that go deeper, each in order.
pub fn retain_out_of_date(ids: &mut Vec<usize>, fate: &Vec<Fate>) -> (moved: (Vec<usize>, Vec<usize>))
    requires
        ids_below(old(ids)@, fate@.len()),
    ensures
        final(ids)@ == old(ids)@.filter(has_fate(fate@, Fate::Stays)),
        moved.0@ == old(ids)@.filter(has_fate(fate@, Fate::Leaves)),
        moved.1@ == old(ids)@.filter(has_fate(fate@, Fate::Deeper)),
{
    let mut kept: Vec<usize> = Vec::new();
    let mut leaving: Vec<usize> = Vec::new();
    let mut deeper: Vec<usize> = Vec::new();
    let mut k: usize = 0;
    while k < ids.len()
        invariant
            k <= ids.len(),
            ids@ == old(ids)@,
            ids_below(ids@, fate@.len()),
            kept@ == ids@.take(k as int).filter(has_fate(fate@, Fate::Stays)),
            leaving@ == ids@.take(k as int).filter(has_fate(fate@, Fate::Leaves)),
            deeper@ == ids@.take(k as int).filter(has_fate(fate@, Fate::Deeper)),
        decreases ids.len() - k,
    {
        let id: usize = ids[k];
        let ghost pre = ids@.take(k as int);
        proof {
            assert(ids@.take(k + 1) =~= pre.push(id));
            pre.lemma_filter_push(id, has_fate(fate@, Fate::Stays));
            pre.lemma_filter_push(id, has_fate(fate@, Fate::Leaves));
            pre.lemma_filter_push(id, has_fate(fate@, Fate::Deeper));
        }
        match fate[id] {
            Fate::Stays => {
                kept.push(id);
            },
            Fate::Leaves => {
                leaving.push(id);
            },
            Fate::Deeper => {
                deeper.push(id);
            },
        }
        k = k + 1;
    }
    proof {
        assert(ids@.take(k as int) =~= ids@);
    }
    *ids = kept;
    (leaving, deeper)
}

/// Sorting a list by fate loses and invents no id: the ids that stay, leave
/// and go deeper together are the ids the list held.
pub proof fn lemma_partition_by_fate(ids: Seq<usize>, fate: Seq<Fate>)
    ensures
        (ids.filter(has_fate(fate, Fate::Stays)) + ids.filter(has_fate(fate, Fate::Leaves))
            + ids.filter(has_fate(fate, Fate::Deeper))).to_multiset() == ids.to_multiset(),
    decreases ids.len(),
{
    broadcast use vstd::seq_lib::group_to_multiset_ensures;
    let st = ids.filter(has_fate(fate, Fate::Stays));
    let lv = ids.filter(has_fate(fate, Fate::Leaves));
    let dp = ids.filter(has_fate(fate, Fate::Deeper));
    if ids.len() == 0 {
        assert(st + lv + dp =~= ids);
    } else {
        let pre = ids.drop_last();
        let x = ids.last();
        lemma_partition_by_fate(pre, fate);
        assert(ids =~= pre.push(x));
        pre.lemma_filter_push(x, has_fate(fate, Fate::Stays));
        pre.lemma_filter_push(x, has_fate(fate, Fate::Leaves));
        pre.lemma_filter_push(x, has_fate(fate, Fate::Deeper));
        let a = pre.filter(has_fate(fate, Fate::Stays));
        let b = pre.filter(has_fate(fate, Fate::Leaves));
        let c = pre.filter(has_fate(fate, Fate::Deeper));
        vstd::seq_lib::lemma_multiset_commutative(a + b, c);
        vstd::seq_lib::lemma_multiset_commutative(a, b);
        vstd::seq_lib::lemma_multiset_commutative(st + lv, dp);
        vstd::seq_lib::lemma_multiset_commutative(st, lv);
        assert(ids.to_multiset() =~= pre.to_multiset().insert(x));
        if fate[x as int] == Fate::Stays {
            assert(st =~= a.push(x));
            assert(a.push(x).to_multiset() =~= a.to_multiset().insert(x));
        } else if fate[x as int] == Fate::Leaves {
            assert(lv =~= b.push(x));
            assert(b.push(x).to_multiset() =~= b.to_multiset().insert(x));
        } else {
            assert(dp =~= c.push(x));
            assert(c.push(x).to_multiset() =~= c.to_multiset().insert(x));
        }
        assert((st + lv + dp).to_multiset() =~= ids.to_multiset());
    }
}

/// The first ancestor, in the order given, whose box contains a leaving
/// id's new box (`contains[k]` for ancestor `k`), if any does.
pub fn first_containing(contains: &Vec<bool>) -> (r: Option<usize>)
    ensures
        match r {
            None => forall|k: int| 0 <= k < contains@.len() ==> !contains@[k],
            Some(k) => k < contains@.len() && contains@[k as int] && forall|j: int|
                0 <= j < k ==> !contains@[j],
        },
{
    let mut k: usize = 0;
    while k < contains.len()
        invariant
            k <= contains.len(),
            forall|j: int| 0 <= j < k ==> !contains@[j],
        decreases contains.len() - k,
    {
        if contains[k] {
            return Some(k);
        }
        k = k + 1;
    }
    None
}

/// An id leaves its volume exactly when the volume no longer contains its
/// new box; it goes deeper exactly when the volume still contains the box,
/// has children, and one of them contains it; otherwise it stays.
pub proof fn lemma_fate_rules(inside: bool, branch: bool, in_child: bool)
    ensures
        (spec_fate(inside, branch, in_child) == Fate::Leaves) <==> !inside,
        (spec_fate(inside, branch, in_child) == Fate::Deeper) <==> (inside && branch && in_child),
        (spec_fate(inside, branch, in_child) == Fate::Stays) <==> (inside && !(branch && in_child)),
{
}

/// Where the ids of a splitting volume end up in child `i`: the child
/// gains as contained exactly the parent's contained ids whose home is `i`,
/// and as overlapping exactly the ids that overlap it among those left in
/// the parent and those that only overlapped the parent, triggers apart.
/// The child keeps everything it held.
pub proof fn lemma_split_child_members(
    before: VolumeIds,
    after: VolumeIds,
    parent: VolumeIds,
    homes: Seq<Option<usize>>,
    overlaps: Seq<(bool, bool, bool, bool)>,
    i: usize,
    id: usize,
)
    requires
        i < 4,
        split_child(before, after, parent, homes, overlaps, i),
    ensures
        after.contained@.contains(id) <==> (before.contained@.contains(id) || (
        parent.contained@.contains(id) && homes[id as int] == Some(i))),
        after.contained_triggers@.contains(id) <==> (before.contained_triggers@.contains(id) || (
        parent.contained_triggers@.contains(id) && homes[id as int] == Some(i))),
        after.uncontained@.contains(id) <==> (before.uncontained@.contains(id) || (((
        parent.contained@.contains(id) && !(homes[id as int] == Some(0usize) || homes[id as int]
            == Some(1usize) || homes[id as int] == Some(2usize) || homes[id as int] == Some(3usize)))
            || parent.uncontained@.contains(id)) && overlap_flag(overlaps[id as int], i as int))),
        after.uncontained_triggers@.contains(id) <==> (before.uncontained_triggers@.contains(id) || (
        ((parent.contained_triggers@.contains(id) && !(homes[id as int] == Some(0usize)
            || homes[id as int] == Some(1usize) || homes[id as int] == Some(2usize) || homes[id
            as int] == Some(3usize))) || parent.uncontained_triggers@.contains(id))
            && overlap_flag(overlaps[id as int], i as int))),
{
    broadcast use vstd::seq_lib::group_seq_properties;
    lemma_filter_contains_iff(parent.contained@, at_home(homes, i), id);
    lemma_filter_contains_iff(parent.contained_triggers@, at_home(homes, i), id);
    let kept = homeless(parent.contained@, homes);
    let kept_t = homeless(parent.contained_triggers@, homes);
    lemma_filter_contains_iff(parent.contained@, no_home(homes), id);
    lemma_filter_contains_iff(parent.contained_triggers@, no_home(homes), id);
    lemma_filter_contains_iff(kept, overlaps_child(overlaps, i as int), id);
    lemma_filter_contains_iff(kept_t, overlaps_child(overlaps, i as int), id);
    lemma_filter_contains_iff(parent.uncontained@, overlaps_child(overlaps, i as int), id);
    lemma_filter_contains_iff(parent.uncontained_triggers@, overlaps_child(overlaps, i as int), id);
}

} // verus!
