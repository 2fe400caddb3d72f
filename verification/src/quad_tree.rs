//! A quad tree whose nodes carry a value of any type. A node is either a leaf
//! or has exactly four children. Values decide for themselves how they are
//! handed down to new children (`split`) and gathered back (`join`).
//! Nodes are visited in post-order: the four children, first to last, each
//! in post-order, then the node itself.
use vstd::prelude::*;

verus! {

/// A value that can be divided among four new children when its node splits.
pub trait TreeSplitable: Sized {
    /// The value left in the parent and the four children's values after
    /// `tree_split` runs on a parent holding `self` and children holding
    /// `children`.
    spec fn tree_split_result(&self, children: (Self, Self, Self, Self)) -> (
        Self,
        (Self, Self, Self, Self),
    );

    /// Divides this value among the four children.
    fn tree_split(&mut self, children: &mut (Self, Self, Self, Self))
        ensures
            (*final(self), *final(children)) == old(self).tree_split_result(*old(children)),
    ;
}

/// A value that can gather the values of its four children when its node
/// joins them.
pub trait TreeJoinable: Sized {
    /// Whether `tree_join` is defined on these values.
    spec fn tree_join_requires(&self, children: (Self, Self, Self, Self)) -> bool;

    /// The parent's value after `tree_join` runs on these values.
    spec fn tree_join_result(&self, children: (Self, Self, Self, Self)) -> Self;

    /// Gathers the four children's values into this one.
    fn tree_join(&mut self, children: (&Self, &Self, &Self, &Self))
        requires
            old(self).tree_join_requires((*children.0, *children.1, *children.2, *children.3)),
        ensures
            *final(self) == old(self).tree_join_result(
                (*children.0, *children.1, *children.2, *children.3),
            ),
    ;
}

/// Like `TreeSplitable`, with shared data that the split may read and change.
pub trait TreeSplitableWith<D>: Sized {
    /// The parent's value, the children's values and the data after
    /// `tree_split_with`.
    spec fn tree_split_with_result(&self, children: (Self, Self, Self, Self), data: D) -> (
        Self,
        (Self, Self, Self, Self),
        D,
    );

    /// Divides this value among the four children, with `data` at hand.
    fn tree_split_with(&mut self, children: &mut (Self, Self, Self, Self), data: &mut D)
        ensures
            (*final(self), *final(children), *final(data)) == old(self).tree_split_with_result(
                *old(children),
                *old(data),
            ),
    ;
}

/// Like `TreeJoinable`, with shared data that the join may read and change.
pub trait TreeJoinableWith<D>: Sized {
    /// Whether `tree_join_with` is defined on these values.
    spec fn tree_join_with_requires(&self, children: (Self, Self, Self, Self), data: D) -> bool;

    /// The parent's value and the data after `tree_join_with`.
    spec fn tree_join_with_result(&self, children: (Self, Self, Self, Self), data: D) -> (Self, D);

    /// Gathers the four children's values into this one, with `data` at hand.
    fn tree_join_with(&mut self, children: (&Self, &Self, &Self, &Self), data: &mut D)
        requires
            old(self).tree_join_with_requires(
                (*children.0, *children.1, *children.2, *children.3),
                *old(data),
            ),
        ensures
            (*final(self), *final(data)) == old(self).tree_join_with_result(
                (*children.0, *children.1, *children.2, *children.3),
                *old(data),
            ),
    ;
}

/// A node of a quad tree: a value and, unless the node is a leaf, four
/// children (top-left, top-right, bottom-left, bottom-right).
pub struct QuadTree<T> {
    pub value: T,
    pub children: Option<Box<(QuadTree<T>, QuadTree<T>, QuadTree<T>, QuadTree<T>)>>,
}

/// Child number `i` (0 to 3) of a group of four.
pub open spec fn child<T>(c: (QuadTree<T>, QuadTree<T>, QuadTree<T>, QuadTree<T>), i: int) -> QuadTree<T> {
    if i == 0 {
        c.0
    } else if i == 1 {
        c.1
    } else if i == 2 {
        c.2
    } else {
        c.3
    }
}

/// The values of a group of four nodes.
pub open spec fn values<T>(c: (QuadTree<T>, QuadTree<T>, QuadTree<T>, QuadTree<T>)) -> (T, T, T, T) {
    (c.0.value, c.1.value, c.2.value, c.3.value)
}

/// A leaf holding `v`.
pub open spec fn leaf<T>(v: T) -> QuadTree<T> {
    QuadTree { value: v, children: None }
}

impl<T> QuadTree<T> {
    /// The nodes of this tree in post-order: the children's post-orders,
    /// first child to last, then this node.
    pub open spec fn post_order(self) -> Seq<QuadTree<T>>
        decreases self,
    {
        match self.children {
            None => seq![self],
            Some(c) => c.0.post_order() + c.1.post_order() + c.2.post_order() + c.3.post_order()
                + seq![self],
        }
    }

    /// The nodes of this tree in reverse post-order: this node, then the
    /// children's reverse post-orders from last child to first.
    pub open spec fn reverse_post_order(self) -> Seq<QuadTree<T>>
        decreases self,
    {
        match self.children {
            None => seq![self],
            Some(c) => seq![self] + c.3.reverse_post_order() + c.2.reverse_post_order()
                + c.1.reverse_post_order() + c.0.reverse_post_order(),
        }
    }

    /// Length of the longest path from this node down to a leaf.
    pub open spec fn height(self) -> nat
        decreases self,
    {
        match self.children {
            None => 0,
            Some(c) => {
                let h0 = c.0.height();
                let h1 = c.1.height();
                let h2 = c.2.height();
                let h3 = c.3.height();
                let a = if h0 >= h1 { h0 } else { h1 };
                let b = if h2 >= h3 { h2 } else { h3 };
                1 + if a >= b { a } else { b }
            },
        }
    }

    /// A leaf holding `value`.
    pub fn new(value: T) -> (r: QuadTree<T>)
        ensures
            r == leaf(value),
    {
        QuadTree::<T> { value: value, children: None }
    }

    /// Whether this node has no children.
    pub fn is_leaf(&self) -> (r: bool)
        ensures
            r == (self.children is None),
    {
        self.children.is_none()
    }

    /// An iterator over the nodes of this tree in post-order (from the
    /// front) and reverse post-order (from the back).
    pub fn iter(&self) -> (r: Iter<'_, T>)
        ensures
            r.front_remaining() == self.post_order(),
            r.back_remaining() == self.post_order().reverse(),
    {
        Iter::new(self)
    }
}

impl<T> QuadTree<T> where T: TreeSplitable + TreeJoinable + Default {
    /// Gives this node four fresh leaf children, each starting from
    /// `T::default()`, and lets the value divide itself among them.
    pub fn split(&mut self)
        ensures
            final(self).children matches Some(c) && c.0.children is None && c.1.children is None
                && c.2.children is None && c.3.children is None,
            exists|d: (T, T, T, T)|
                {
                    &&& call_ensures(T::default, (), d.0)
                    &&& call_ensures(T::default, (), d.1)
                    &&& call_ensures(T::default, (), d.2)
                    &&& call_ensures(T::default, (), d.3)
                    &&& #[trigger] old(self).value.tree_split_result(d) == (
                        final(self).value,
                        values(*final(self).children.unwrap()),
                    )
                },
    {
        let mut kids = (T::default(), T::default(), T::default(), T::default());
        let ghost d = kids;
        self.value.tree_split(&mut kids);
        let (a, b, c, e) = kids;
        self.children = Some(
            Box::new((QuadTree::new(a), QuadTree::new(b), QuadTree::new(c), QuadTree::new(e))),
        );
        proof {
            assert(old(self).value.tree_split_result(d) == (
                self.value,
                values(*self.children.unwrap()),
            ));
        }
    }

    /// Lets the value gather its children's values, then drops the children.
    /// A leaf is left as it is.
    pub fn join(&mut self)
        requires
            old(self).children matches Some(c) ==> old(self).value.tree_join_requires(
                values(*c),
            ),
        ensures
            final(self).children is None,
            final(self).value == match old(self).children {
                Some(c) => old(self).value.tree_join_result(values(*c)),
                None => old(self).value,
            },
    {
        match &self.children {
            Some(c) => {
                self.value.tree_join((&c.0.value, &c.1.value, &c.2.value, &c.3.value));
            },
            None => {},
        }
        self.children = None;
    }
}

impl<T> QuadTree<T> {
    /// `split`, with `data` handed to the value's split.
    pub fn split_with<D>(&mut self, data: &mut D) where T: TreeSplitableWith<D> + TreeJoinableWith<D> + Default
        ensures
            final(self).children matches Some(c) && c.0.children is None && c.1.children is None
                && c.2.children is None && c.3.children is None,
            exists|d: (T, T, T, T)|
                {
                    &&& call_ensures(T::default, (), d.0)
                    &&& call_ensures(T::default, (), d.1)
                    &&& call_ensures(T::default, (), d.2)
                    &&& call_ensures(T::default, (), d.3)
                    &&& #[trigger] old(self).value.tree_split_with_result(d, *old(data)) == (
                        final(self).value,
                        values(*final(self).children.unwrap()),
                        *final(data),
                    )
                },
    {
        let mut kids = (T::default(), T::default(), T::default(), T::default());
        let ghost d = kids;
        self.value.tree_split_with(&mut kids, data);
        let (a, b, c, e) = kids;
        self.children = Some(
            Box::new((QuadTree::new(a), QuadTree::new(b), QuadTree::new(c), QuadTree::new(e))),
        );
        proof {
            assert(old(self).value.tree_split_with_result(d, *old(data)) == (
                self.value,
                values(*self.children.unwrap()),
                *data,
            ));
        }
    }

    /// `join`, with `data` handed to the value's join.
    pub fn join_with<D>(&mut self, data: &mut D) where T: TreeSplitableWith<D> + TreeJoinableWith<D> + Default
        requires
            old(self).children matches Some(c) ==> old(self).value.tree_join_with_requires(
                values(*c),
                *old(data),
            ),
        ensures
            final(self).children is None,
            (final(self).value, *final(data)) == match old(self).children {
                Some(c) => old(self).value.tree_join_with_result(values(*c), *old(data)),
                None => (old(self).value, *old(data)),
            },
    {
        match &self.children {
            Some(c) => {
                self.value.tree_join_with((&c.0.value, &c.1.value, &c.2.value, &c.3.value), data);
            },
            None => {},
        }
        self.children = None;
    }
}

/// Rust's `/` on integers: the quotient rounded toward zero.
pub open spec fn quot(x: int, d: int) -> int {
    if x >= 0 {
        x / d
    } else {
        -((-x) / d)
    }
}

/// Rust's `%` on integers: the remainder with the sign of `x`.
pub open spec fn rem(x: int, d: int) -> int {
    if x >= 0 {
        x % d
    } else {
        -((-x) % d)
    }
}

/// How an `i32` divides: a quarter to each child, the remainder to the
/// first, nothing left in the parent.
pub open spec fn i32_split(v: i32) -> (i32, (i32, i32, i32, i32)) {
    let q = quot(v as int, 4) as i32;
    (0, ((quot(v as int, 4) + rem(v as int, 4)) as i32, q, q, q))
}

impl TreeSplitable for i32 {
    open spec fn tree_split_result(&self, children: (i32, i32, i32, i32)) -> (
        i32,
        (i32, i32, i32, i32),
    ) {
        i32_split(*self)
    }

    fn tree_split(&mut self, children: &mut (i32, i32, i32, i32)) {
        let q: i32 = *self / 4;
        children.0 = q + *self % 4;
        children.1 = q;
        children.2 = q;
        children.3 = q;
        *self = 0;
    }
}

impl TreeJoinable for i32 {
    open spec fn tree_join_requires(&self, children: (i32, i32, i32, i32)) -> bool {
        i32::MIN <= children.0 + children.1 + children.2 + children.3 <= i32::MAX
            && i32::MIN <= children.0 + children.1 <= i32::MAX
            && i32::MIN <= children.0 + children.1 + children.2 <= i32::MAX
    }

    open spec fn tree_join_result(&self, children: (i32, i32, i32, i32)) -> i32 {
        (children.0 + children.1 + children.2 + children.3) as i32
    }

    fn tree_join(&mut self, children: (&i32, &i32, &i32, &i32)) {
        *self = *children.0 + *children.1 + *children.2 + *children.3;
    }
}

impl<D> TreeSplitableWith<D> for i32 {
    open spec fn tree_split_with_result(&self, children: (i32, i32, i32, i32), data: D) -> (
        i32,
        (i32, i32, i32, i32),
        D,
    ) {
        (i32_split(*self).0, i32_split(*self).1, data)
    }

    fn tree_split_with(&mut self, children: &mut (i32, i32, i32, i32), data: &mut D) {
        let q: i32 = *self / 4;
        children.0 = q + *self % 4;
        children.1 = q;
        children.2 = q;
        children.3 = q;
        *self = 0;
    }
}

impl<D> TreeJoinableWith<D> for i32 {
    open spec fn tree_join_with_requires(&self, children: (i32, i32, i32, i32), data: D) -> bool {
        self.tree_join_requires(children)
    }

    open spec fn tree_join_with_result(&self, children: (i32, i32, i32, i32), data: D) -> (i32, D) {
        (self.tree_join_result(children), data)
    }

    fn tree_join_with(&mut self, children: (&i32, &i32, &i32, &i32), data: &mut D) {
        *self = *children.0 + *children.1 + *children.2 + *children.3;
    }
}

/// Joining the four values an `i32` splits into gives the `i32` back.
pub proof fn lemma_i32_join_undoes_split(v: i32)
    ensures
        ({
            let (p, c) = i32_split(v);
            p.tree_join_requires(c) && p.tree_join_result(c) == v
        }),
{
    let x = v as int;
    if x >= 0 {
        assert(x == 4 * (x / 4) + x % 4);
    } else {
        assert(-x == 4 * ((-x) / 4) + (-x) % 4);
    }
}

/// What an `i32` parent holding `v` leaves after dividing itself: nothing in
/// the parent; `v / 4` (rounded toward zero) in each of the last three
/// children; and that plus the remainder in the first, so that the children
/// hold `v` between them.
pub open spec fn i32_divided(v: i32, p: i32, c: (i32, i32, i32, i32)) -> bool {
    let r = v - 4 * c.1;
    &&& p == 0
    &&& c.1 == c.2 && c.2 == c.3
    &&& (v >= 0 ==> 0 <= r < 4)
    &&& (v < 0 ==> -4 < r <= 0)
    &&& c.0 == c.1 + r
    &&& c.0 + c.1 + c.2 + c.3 == v
}

/// An `i32` splits (with or without data) into a zero parent and four
/// quarters, the remainder going to the first child; the data passes
/// through untouched; and joining the children gives the value back.
pub proof fn lemma_i32_split_laws<D>(v: i32, c0: (i32, i32, i32, i32), d0: D)
    ensures
        ({
            let (p, c) = v.tree_split_result(c0);
            &&& i32_divided(v, p, c)
            &&& p.tree_join_requires(c)
            &&& p.tree_join_result(c) == v
        }),
        ({
            let (p, c, d) = v.tree_split_with_result(c0, d0);
            &&& i32_divided(v, p, c)
            &&& d == d0
            &&& p.tree_join_with_requires(c, d)
            &&& p.tree_join_with_result(c, d) == (v, d0)
        }),
{
    let x = v as int;
    if x >= 0 {
        assert(x == 4 * (x / 4) + x % 4);
    } else {
        assert(-x == 4 * ((-x) / 4) + (-x) % 4);
    }
}

/// Reading the post-order backwards gives the reverse post-order.
pub proof fn lemma_reverse_post_order<T>(t: QuadTree<T>)
    ensures
        t.reverse_post_order() == t.post_order().reverse(),
    decreases t,
{
    match t.children {
        None => {
            assert(seq![t].reverse() =~= seq![t]);
        },
        Some(c) => {
            lemma_reverse_post_order(c.0);
            lemma_reverse_post_order(c.1);
            lemma_reverse_post_order(c.2);
            lemma_reverse_post_order(c.3);
            let p0 = c.0.post_order();
            let p1 = c.1.post_order();
            let p2 = c.2.post_order();
            let p3 = c.3.post_order();
            lemma_reverse_concat(p0 + p1 + p2 + p3, seq![t]);
            lemma_reverse_concat(p0 + p1 + p2, p3);
            lemma_reverse_concat(p0 + p1, p2);
            lemma_reverse_concat(p0, p1);
            assert(seq![t].reverse() =~= seq![t]);
            assert(t.reverse_post_order() =~= t.post_order().reverse());
        },
    }
}

/// Reversing a concatenation reverses and swaps the parts.
pub proof fn lemma_reverse_concat<A>(a: Seq<A>, b: Seq<A>)
    ensures
        (a + b).reverse() == b.reverse() + a.reverse(),
{
    assert((a + b).reverse() =~= b.reverse() + a.reverse());
}

/// Each child is strictly lower than its parent.
proof fn lemma_child_height<T>(t: QuadTree<T>, i: int)
    requires
        t.children is Some,
        0 <= i < 4,
    ensures
        child(*t.children.unwrap(), i).height() < t.height(),
{
}

/// Borrows child number `i` of a group of four.
fn pick<T>(c: &(QuadTree<T>, QuadTree<T>, QuadTree<T>, QuadTree<T>), i: usize) -> (r: &QuadTree<T>)
    requires
        i < 4,
    ensures
        *r == child(*c, i as int),
{
    if i == 0 {
        &c.0
    } else if i == 1 {
        &c.1
    } else if i == 2 {
        &c.2
    } else {
        &c.3
    }
}

/// The post-orders of children `i` to 3, one after the other.
pub open spec fn children_post_order_from<T>(
    c: (QuadTree<T>, QuadTree<T>, QuadTree<T>, QuadTree<T>),
    i: int,
) -> Seq<QuadTree<T>>
    decreases 4 - i,
{
    if i >= 4 || i < 0 {
        Seq::empty()
    } else {
        child(c, i).post_order() + children_post_order_from(c, i + 1)
    }
}

/// What remains of a node's post-order once its children before `i` have
/// been visited: the rest of the children, then the node.
pub open spec fn frame_rest<T>(n: QuadTree<T>, i: int) -> Seq<QuadTree<T>> {
    match n.children {
        None => seq![n],
        Some(c) => children_post_order_from(*c, i) + seq![n],
    }
}

/// With no child visited yet, what remains of a node is its post-order.
proof fn lemma_frame_rest_start<T>(n: QuadTree<T>)
    ensures
        frame_rest(n, 0) == n.post_order(),
{
    match n.children {
        None => {},
        Some(c) => {
            let c = *c;
            reveal_with_fuel(children_post_order_from, 5);
            assert(children_post_order_from(c, 4) =~= Seq::<QuadTree<T>>::empty());
            assert(children_post_order_from(c, 0) =~= c.0.post_order() + c.1.post_order()
                + c.2.post_order() + c.3.post_order());
            assert(frame_rest(n, 0) =~= n.post_order());
        },
    }
}

/// Replacing the last pending subtree by its four children, the last child
/// on top, takes the subtree's root off the front of what remains.
proof fn lemma_pending_split<'a, T>(s: Seq<&'a QuadTree<T>>, s2: Seq<&'a QuadTree<T>>)
    requires
        s.len() > 0,
        (*s.last()).children matches Some(c) && s2 == s.drop_last().push(&c.0).push(&c.1).push(
            &c.2,
        ).push(&c.3),
    ensures
        pending_rest(s).len() > 0,
        pending_rest(s)[0] == *s.last(),
        pending_rest(s).drop_first() == pending_rest(s2),
{
    let node = *s.last();
    let c = *node.children.unwrap();
    let rest = pending_rest(s.drop_last());
    reveal_with_fuel(pending_rest, 5);
    assert(s2.drop_last().drop_last().drop_last().drop_last() =~= s.drop_last());
    assert(pending_rest(s2) =~= c.3.reverse_post_order() + c.2.reverse_post_order()
        + c.1.reverse_post_order() + c.0.reverse_post_order() + rest);
    assert(pending_rest(s) =~= seq![node] + pending_rest(s2));
    assert(pending_rest(s).drop_first() =~= pending_rest(s2));
}

/// A front iterator over the nodes of a quad tree in post-order and a back
/// iterator over them in reverse post-order. The two ends are independent:
/// each walks the whole tree once.
pub struct Iter<'a, T> {
    /// Nodes being visited from the front, outermost first, each with the
    /// number of its children already entered.
    visiting: Vec<(&'a QuadTree<T>, usize)>,
    /// Subtrees still to visit from the back, the next one last.
    visiting_back: Vec<&'a QuadTree<T>>,
}

/// The nodes still to come from a stack of front frames.
pub open spec fn frames_rest<'a, T>(s: Seq<(&'a QuadTree<T>, usize)>) -> Seq<QuadTree<T>>
    decreases s.len(),
{
    if s.len() == 0 {
        Seq::empty()
    } else {
        frame_rest(*s.last().0, s.last().1 as int) + frames_rest(s.drop_last())
    }
}

/// The nodes still to come from a stack of pending back subtrees.
pub open spec fn pending_rest<'a, T>(s: Seq<&'a QuadTree<T>>) -> Seq<QuadTree<T>>
    decreases s.len(),
{
    if s.len() == 0 {
        Seq::empty()
    } else {
        (*s.last()).reverse_post_order() + pending_rest(s.drop_last())
    }
}

impl<'a, T> Iter<'a, T> {
    /// The nodes that `next` will still return, in order.
    pub closed spec fn front_remaining(&self) -> Seq<QuadTree<T>> {
        frames_rest(self.visiting@)
    }

    /// The nodes that `next_back` will still return, in order.
    pub closed spec fn back_remaining(&self) -> Seq<QuadTree<T>> {
        pending_rest(self.visiting_back@)
    }

    /// Iterators over the tree rooted at `node`, both ends at their start.
    pub fn new(node: &'a QuadTree<T>) -> (r: Iter<'a, T>)
        ensures
            r.front_remaining() == node.post_order(),
            r.back_remaining() == node.post_order().reverse(),
    {
        let mut visiting = Vec::new();
        visiting.push((node, 0usize));
        let mut visiting_back = Vec::new();
        visiting_back.push(node);
        let r = Iter { visiting: visiting, visiting_back: visiting_back };
        proof {
            lemma_frame_rest_start(*node);
            lemma_reverse_post_order(*node);
            reveal_with_fuel(frames_rest, 2);
            reveal_with_fuel(pending_rest, 2);
            assert(r.visiting@.drop_last() =~= Seq::<(&'a QuadTree<T>, usize)>::empty());
            assert(r.visiting_back@.drop_last() =~= Seq::<&'a QuadTree<T>>::empty());
            assert(r.front_remaining() =~= node.post_order());
            assert(r.back_remaining() =~= node.post_order().reverse());
        }
        r
    }

    /// The next node in post-order, or `None` once every node has come.
    pub fn next(&mut self) -> (r: Option<&'a QuadTree<T>>)
        ensures
            old(self).front_remaining().len() == 0 ==> r is None
                && final(self).front_remaining() == old(self).front_remaining(),
            old(self).front_remaining().len() > 0 ==> r == Some(
                &old(self).front_remaining()[0],
            ) && final(self).front_remaining() == old(self).front_remaining().drop_first(),
            final(self).back_remaining() == old(self).back_remaining(),
    {
        if self.visiting.len() == 0 {
            return None;
        }
        let ghost start = self.visiting@;
        loop
            invariant
                self.visiting.len() > 0,
                frames_rest(self.visiting@) == frames_rest(start),
                start == old(self).visiting@,
                self.visiting_back == old(self).visiting_back,
            decreases (*self.visiting@.last().0).height(),
        {
            let last: usize = self.visiting.len() - 1;
            let (node, i) = self.visiting[last];
            let ghost s = self.visiting@;
            let ghost rest = frames_rest(s.drop_last());
            match &node.children {
                Some(c) => {
                    if i < 4 {
                        let ch = pick(&**c, i);
                        self.visiting.set(last, (node, i + 1));
                        self.visiting.push((ch, 0));
                        proof {
                            let s2 = self.visiting@;
                            reveal_with_fuel(frames_rest, 3);
                            assert(s2.drop_last().drop_last() =~= s.drop_last());
                            assert(s2.drop_last().last() == (node, (i + 1) as usize));
                            lemma_frame_rest_start(*ch);
                            assert(frame_rest(*node, i as int) =~= ch.post_order() + frame_rest(
                                *node,
                                i + 1,
                            ));
                            assert(frames_rest(s2) =~= ch.post_order() + frame_rest(*node, i + 1)
                                + rest);
                            assert(frames_rest(s) =~= frame_rest(*node, i as int) + rest);
                            lemma_child_height(*node, i as int);
                        }
                    } else {
                        self.visiting.pop();
                        proof {
                            assert(children_post_order_from(**c, i as int) =~= Seq::<
                                QuadTree<T>,
                            >::empty());
                            assert(frames_rest(s) =~= seq![*node] + rest);
                            assert(self.visiting@ =~= s.drop_last());
                            assert(frames_rest(s).drop_first() =~= rest);
                        }
                        return Some(node);
                    }
                },
                None => {
                    self.visiting.pop();
                    proof {
                        assert(frames_rest(s) =~= seq![*node] + rest);
                        assert(self.visiting@ =~= s.drop_last());
                        assert(frames_rest(s).drop_first() =~= rest);
                    }
                    return Some(node);
                },
            }
        }
    }

    /// The next node in reverse post-order, or `None` once every node has
    /// come.
    pub fn next_back(&mut self) -> (r: Option<&'a QuadTree<T>>)
        ensures
            old(self).back_remaining().len() == 0 ==> r is None
                && final(self).back_remaining() == old(self).back_remaining(),
            old(self).back_remaining().len() > 0 ==> r == Some(
                &old(self).back_remaining()[0],
            ) && final(self).back_remaining() == old(self).back_remaining().drop_first(),
            final(self).front_remaining() == old(self).front_remaining(),
    {
        let ghost s = self.visiting_back@;
        match self.visiting_back.pop() {
            None => {
                proof {
                    assert(s.len() == 0);
                }
                None
            },
            Some(node) => {
                let ghost rest = pending_rest(s.drop_last());
                proof {
                    assert(self.visiting_back@ =~= s.drop_last());
                }
                match &node.children {
                    Some(c) => {
                        self.visiting_back.push(&c.0);
                        self.visiting_back.push(&c.1);
                        self.visiting_back.push(&c.2);
                        self.visiting_back.push(&c.3);
                        proof {
                            lemma_pending_split(s, self.visiting_back@);
                        }
                    },
                    None => {
                        proof {
                            assert(pending_rest(s) =~= seq![*node] + rest);
                            assert(pending_rest(s).drop_first() =~= rest);
                        }
                    },
                }
                Some(node)
            },
        }
    }
}

} // verus!
