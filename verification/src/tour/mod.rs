use vstd::prelude::*;

pub mod cycle;

mod array;
pub use array::Array;

mod tll;
pub use tll::TwoLevelList;

use crate::tour::cycle::{
    between_in, flip_result, flipped, is_perm, is_tour, lemma_pos_in_tour, lemma_rotate_tour, next_in, pos_of, prev_in, reversed,
    two_arcs, lemma_reversed_tour, lemma_next_reversed, rotate_from,
};

verus! {

/// Cyclic "betweenness" of three positions: starting at `from` and walking
/// forward (wrapping around), `mid` is reached no later than `to`.
pub open spec fn between_spec(from: int, mid: int, to: int) -> bool {
    if from <= to {
        from <= mid && mid <= to
    } else {
        !(to < mid && mid < from)
    }
}

/// Returns true iff, on a cyclic order of ranks, `mid` lies on the forward
/// walk from `from` to `to` (both ends included).
pub fn between(from: usize, mid: usize, to: usize) -> (r: bool)
    ensures
        r == between_spec(from as int, mid as int, to as int),
{
    if from <= to {
        from <= mid && mid <= to
    } else {
        !(to < mid && mid < from)
    }
}

/// For three distinct ranks, `mid` lies on exactly one of the two walks
/// between `from` and `to`: the one from `from` to `to` or the one back.
pub proof fn law_between_exclusive(from: int, mid: int, to: int)
    requires
        from != mid,
        mid != to,
        from != to,
    ensures
        between_spec(from, mid, to) != between_spec(to, mid, from),
{
}

/// How many steps forward lead from rank `x` to rank `y` on a cycle of `n`
/// ranks.
pub open spec fn cyc_steps(x: int, y: int, n: int) -> int {
    if x <= y {
        y - x
    } else {
        y - x + n
    }
}

/// On a cycle of `n` ranks, the walk forward from `from` reaches `mid` no
/// later than `to` exactly when it takes no more steps to reach `mid` than
/// to reach `to`.
pub proof fn law_between_walk(from: int, mid: int, to: int, n: int)
    requires
        0 <= from < n,
        0 <= mid < n,
        0 <= to < n,
    ensures
        between_spec(from, mid, to) == (cyc_steps(from, mid, n) <= cyc_steps(from, to, n)),
{
}

/// The walk from a rank to itself takes no step: it holds that rank alone.
pub proof fn law_between_same_ends(from: int, mid: int)
    ensures
        between_spec(from, mid, from) == (mid == from),
{
}

/// On a tour, the walk from a node to itself meets no other node.
pub proof fn law_between_in_same_ends(s: Seq<usize>, a: usize, b: usize)
    requires
        is_tour(s),
        a < s.len(),
        b < s.len(),
    ensures
        between_in(s, a, b, a) == (a == b),
{
    lemma_pos_in_tour(s, a);
    lemma_pos_in_tour(s, b);
}

/// Both ends of a walk lie on it.
pub proof fn law_between_ends(from: int, to: int)
    ensures
        between_spec(from, from, to),
        between_spec(from, to, to),
{
}

} // verus!

verus! {

/// A handle on a node of a tour: the node's index, or nothing for the empty handle.
#[derive(Clone, Copy, Debug, PartialEq, Eq, Hash, Structural)]
pub struct TourNode {
    pub inner: Option<usize>,
}

impl TourNode {
    /// The handle on the node with the given index.
    pub open spec fn at(index: usize) -> TourNode {
        TourNode { inner: Some(index) }
    }

    /// The index a handle stands for; the empty handle reads as 0.
    pub open spec fn index_spec(self) -> usize {
        match self.inner {
            Some(i) => i,
            None => 0,
        }
    }

    pub fn new(index: usize) -> (r: TourNode)
        ensures
            r == TourNode::at(index),
    {
        TourNode { inner: Some(index) }
    }

    pub fn empty() -> (r: TourNode)
        ensures
            r.inner is None,
    {
        TourNode { inner: None }
    }

    /// Returns the node's index (0 for the empty handle).
    pub fn index(&self) -> (r: usize)
        ensures
            r == self.index_spec(),
    {
        match self.inner {
            Some(i) => i,
            None => 0,
        }
    }
}

/// How two nodes sit next to each other on a tour.
#[derive(Clone, Copy, Debug, PartialEq, Eq, Structural)]
pub enum NodeRel {
    /// The base node directly precedes the target.
    Predecessor,
    /// The base node directly follows the target.
    Successor,
    /// The two nodes are not neighbours.
    Neither,
}

/// Why a tour could not be updated.
#[derive(Clone, Copy, Debug, PartialEq, Eq, Structural)]
pub enum UpdateTourError {
    BrokenTour,
    TourLenMismatched { expected: usize, received: usize },
    InvalidTourOrder,
    NodeNotFound,
    SearchFailed,
}

/// A sequence of node indices describing a tour.
#[derive(Clone, Debug)]
pub struct TourOrder {
    pub order: Vec<usize>,
}

impl View for TourOrder {
    type V = Seq<usize>;

    open spec fn view(&self) -> Seq<usize> {
        self.order@
    }
}

impl TourOrder {
    /// An empty order.
    pub fn new() -> (r: TourOrder)
        ensures
            r@ == Seq::<usize>::empty(),
    {
        TourOrder { order: Vec::new() }
    }

    /// An empty order with room for `capacity` nodes.
    pub fn with_capacity(capacity: usize) -> (r: TourOrder)
        ensures
            r@ == Seq::<usize>::empty(),
    {
        TourOrder { order: Vec::with_capacity(capacity) }
    }

    /// The natural order `0, 1, .., n - 1`.
    pub fn with_nat_ord(n: usize) -> (r: TourOrder)
        ensures
            r@ == Seq::new(n as nat, |i: int| i as usize),
    {
        let mut order: Vec<usize> = Vec::with_capacity(n);
        let mut i: usize = 0;
        while i < n
            invariant
                i <= n,
                order@ == Seq::new(i as nat, |k: int| k as usize),
            decreases n - i,
        {
            order.push(i);
            i = i + 1;
        }
        TourOrder { order }
    }

    /// The given order.
    pub fn with_ord(order: Vec<usize>) -> (r: TourOrder)
        ensures
            r@ == order@,
    {
        TourOrder { order }
    }

    /// The node indices in tour order.
    pub fn order(&self) -> (r: &Vec<usize>)
        ensures
            r@ == self@,
    {
        &self.order
    }

    pub fn len(&self) -> (r: usize)
        ensures
            r == self@.len(),
    {
        self.order.len()
    }

    /// Appends a node to the order.
    pub fn add(&mut self, index: usize)
        ensures
            final(self)@ == old(self)@.push(index),
    {
        self.order.push(index);
    }
}

impl Default for TourOrder {
    fn default() -> (r: TourOrder)
        ensures
            r@ == Seq::<usize>::empty(),
    {
        TourOrder { order: Vec::new() }
    }
}

/// Checks that `order` lists each of the nodes `0..n` exactly once.
pub(crate) fn is_permutation(order: &Vec<usize>, n: usize) -> (r: bool)
    ensures
        r == crate::tour::cycle::is_perm(order@, n as nat),
{
    if order.len() != n {
        return false;
    }
    let mut seen: Vec<bool> = Vec::with_capacity(n);
    let mut j: usize = 0;
    while j < n
        invariant
            j <= n,
            seen@ == Seq::new(j as nat, |k: int| false),
        decreases n - j,
    {
        seen.push(false);
        j = j + 1;
    }
    let mut i: usize = 0;
    while i < n
        invariant
            order.len() == n,
            seen.len() == n,
            i <= n,
            forall|k: int| 0 <= k < i ==> #[trigger] order[k] < n,
            forall|k: int, l: int| 0 <= k < i && 0 <= l < i && k != l ==> order[k] != order[l],
            forall|v: int| 0 <= v < n ==> (#[trigger] seen[v] <==> exists|k: int| 0 <= k < i && order[k] == v),
        decreases n - i,
    {
        let v = order[i];
        if v >= n {
            return false;
        }
        if seen[v] {
            return false;
        }
        seen.set(v, true);
        i = i + 1;
        proof {
            assert forall|w: int| 0 <= w < n implies (#[trigger] seen[w] <==> exists|k: int| 0 <= k < i && order[k] == w) by {
                if w == v {
                    assert(order[i - 1] == w);
                }
            }
        }
    }
    true
}

/// How `base` sits next to `targ` on the tour `s`.
pub open spec fn relation_spec(s: Seq<usize>, base: TourNode, targ: TourNode) -> NodeRel {
    if base.index_spec() >= s.len() {
        NodeRel::Neither
    } else if targ == TourNode::at(crate::tour::cycle::next_in(s, base.index_spec())) {
        NodeRel::Predecessor
    } else if targ == TourNode::at(crate::tour::cycle::prev_in(s, base.index_spec())) {
        NodeRel::Successor
    } else {
        NodeRel::Neither
    }
}

} // verus!

verus! {

/// The operations that every tour offers. A tour holds the nodes
/// `0 .. len` in a cyclic order, read in a forward direction; each node also
/// carries a visited flag and a list of candidate neighbours.
pub trait Tour: Sized {
    /// The nodes in the order of a forward traversal, from some node on.
    spec fn tour_view(&self) -> Seq<usize>;

    /// The internal invariant of the representation.
    spec fn valid(&self) -> bool;

    /// Whether `flip_at(from_a, to_a, from_b, to_b)` reverses the path
    /// `to_a .. from_b` rather than the path `to_b .. from_a`; each kind of
    /// tour decides by its own layout.
    spec fn flip_turns(&self, from_a: usize, to_a: usize, from_b: usize, to_b: usize) -> bool;

    /// `next` holds what later flips are decided by as
    /// `flip_at(from_a, to_a, from_b, to_b)` leaves it on this tour; together
    /// with the nodes of `next`, this decides every later flip.
    spec fn flip_leaves(&self, next: Self, from_a: usize, to_a: usize, from_b: usize, to_b: usize) -> bool;

    /// The node order that `tour_order` hands out.
    spec fn order_view(&self) -> Seq<usize>;

    /// The visited flag of each node.
    spec fn visited_flags(&self) -> Seq<bool>;

    /// The candidate list of each node.
    spec fn cand_lists(&self) -> Seq<Seq<TourNode>>;

    /// A valid tour holds each of its nodes once, with one flag and one
    /// candidate list per node.
    proof fn lemma_valid(&self)
        requires
            self.valid(),
        ensures
            crate::tour::cycle::is_tour(self.tour_view()),
            self.visited_flags().len() == self.tour_view().len(),
            self.cand_lists().len() == self.tour_view().len(),
    ;

    /// Rearranges the tour's nodes according to the given order, which must
    /// name nodes of the tour. The tour is first set back to the direction
    /// in which it is stored, also when the order is refused. An order that
    /// names a node twice is handled as each kind of tour says.
    fn apply(&mut self, order: &TourOrder) -> (r: Result<(), UpdateTourError>)
        requires
            old(self).valid(),
            order@.len() == old(self).tour_view().len() ==> forall|i: int|
                0 <= i < order@.len() ==> #[trigger] order@[i] < order@.len(),
        ensures
            final(self).valid(),
            final(self).cand_lists() == old(self).cand_lists(),
            order@.len() != old(self).tour_view().len() ==> r == Err::<(), UpdateTourError>(
                UpdateTourError::TourLenMismatched {
                    expected: old(self).tour_view().len() as usize,
                    received: order@.len() as usize,
                },
            ),
            order@.len() == old(self).tour_view().len() ==> (r is Err ==> r == Err::<(), UpdateTourError>(
                UpdateTourError::InvalidTourOrder,
            )),
            r is Err ==> (final(self).tour_view() == old(self).tour_view() || final(self).tour_view() == reversed(
                old(self).tour_view(),
            )) && final(self).visited_flags() == old(self).visited_flags(),
            is_perm(order@, old(self).tour_view().len()) ==> r is Ok && final(self).tour_view() == order@
                && final(self).visited_flags() == Seq::new(old(self).tour_view().len(), |i: int| false),
    ;

    /// Returns true iff the tour, starting at `from`, arrives at `mid` no
    /// later than at `to` in its forward traversal.
    fn between(&self, from: &TourNode, mid: &TourNode, to: &TourNode) -> (r: bool)
        requires
            self.valid(),
        ensures
            r == (from.index_spec() < self.tour_view().len() && mid.index_spec() < self.tour_view().len()
                && to.index_spec() < self.tour_view().len() && between_in(
                self.tour_view(),
                from.index_spec(),
                mid.index_spec(),
                to.index_spec(),
            )),
    ;

    /// `between` on node indices.
    fn between_at(&self, from_index: usize, mid_index: usize, to_index: usize) -> (r: bool)
        requires
            self.valid(),
        ensures
            r == (from_index < self.tour_view().len() && mid_index < self.tour_view().len() && to_index
                < self.tour_view().len() && between_in(self.tour_view(), from_index, mid_index, to_index)),
    ;

    /// Replaces the arcs `(from_a, to_a)` and `(from_b, to_b)` by the arcs
    /// `(from_a, from_b)` and `(to_a, to_b)`, reversing the path between
    /// them that `flip_turns` names.
    fn flip_at(&mut self, from_a: usize, to_a: usize, from_b: usize, to_b: usize)
        requires
            old(self).valid(),
            two_arcs(old(self).tour_view(), from_a, to_a, from_b, to_b),
        ensures
            final(self).valid(),
            flipped(old(self).tour_view(), final(self).tour_view(), from_a, to_a, from_b, to_b),
            final(self).tour_view() == flip_result(
                old(self).tour_view(),
                old(self).flip_turns(from_a, to_a, from_b, to_b),
                from_a,
                to_a,
                from_b,
                to_b,
            ),
            old(self).flip_leaves(*final(self), from_a, to_a, from_b, to_b),
            final(self).visited_flags() == old(self).visited_flags(),
            final(self).cand_lists() == old(self).cand_lists(),
    ;

    /// `flip_at` on the nodes that handles stand for.
    fn flip(&mut self, from_a: &TourNode, to_a: &TourNode, from_b: &TourNode, to_b: &TourNode)
        requires
            old(self).valid(),
            two_arcs(
                old(self).tour_view(),
                from_a.index_spec(),
                to_a.index_spec(),
                from_b.index_spec(),
                to_b.index_spec(),
            ),
        ensures
            final(self).valid(),
            flipped(
                old(self).tour_view(),
                final(self).tour_view(),
                from_a.index_spec(),
                to_a.index_spec(),
                from_b.index_spec(),
                to_b.index_spec(),
            ),
            final(self).tour_view() == flip_result(
                old(self).tour_view(),
                old(self).flip_turns(from_a.index_spec(), to_a.index_spec(), from_b.index_spec(), to_b.index_spec()),
                from_a.index_spec(),
                to_a.index_spec(),
                from_b.index_spec(),
                to_b.index_spec(),
            ),
            old(self).flip_leaves(*final(self), from_a.index_spec(), to_a.index_spec(), from_b.index_spec(), to_b.index_spec()),
            final(self).visited_flags() == old(self).visited_flags(),
            final(self).cand_lists() == old(self).cand_lists(),
    ;

    /// The handle on the node with the given index, if it is on the tour.
    fn get(&self, index: usize) -> (r: Option<TourNode>)
        requires
            self.valid(),
        ensures
            index < self.tour_view().len() ==> r == Some(TourNode::at(index)),
            index >= self.tour_view().len() ==> r is None,
    ;

    /// How `base` sits next to `targ`.
    fn relation(&self, base: &TourNode, targ: &TourNode) -> (r: NodeRel)
        requires
            self.valid(),
        ensures
            r == relation_spec(self.tour_view(), *base, *targ),
    ;

    /// The direct successor of a node in the forward traversal.
    fn successor(&self, kin: &TourNode) -> (r: Option<TourNode>)
        requires
            self.valid(),
        ensures
            kin.index_spec() < self.tour_view().len() ==> r == Some(
                TourNode::at(next_in(self.tour_view(), kin.index_spec())),
            ),
            kin.index_spec() >= self.tour_view().len() ==> r is None,
    ;

    /// `successor` on a node index.
    fn successor_at(&self, kin_index: usize) -> (r: Option<TourNode>)
        requires
            self.valid(),
        ensures
            kin_index < self.tour_view().len() ==> r == Some(TourNode::at(next_in(self.tour_view(), kin_index))),
            kin_index >= self.tour_view().len() ==> r is None,
    ;

    /// The direct predecessor of a node in the forward traversal.
    fn predecessor(&self, kin: &TourNode) -> (r: Option<TourNode>)
        requires
            self.valid(),
        ensures
            kin.index_spec() < self.tour_view().len() ==> r == Some(
                TourNode::at(prev_in(self.tour_view(), kin.index_spec())),
            ),
            kin.index_spec() >= self.tour_view().len() ==> r is None,
    ;

    /// `predecessor` on a node index.
    fn predecessor_at(&self, kin_index: usize) -> (r: Option<TourNode>)
        requires
            self.valid(),
        ensures
            kin_index < self.tour_view().len() ==> r == Some(TourNode::at(prev_in(self.tour_view(), kin_index))),
            kin_index >= self.tour_view().len() ==> r is None,
    ;

    /// Reverses the tour entirely.
    fn rev(&mut self)
        requires
            old(self).valid(),
        ensures
            final(self).valid(),
            final(self).tour_view() == reversed(old(self).tour_view()),
            final(self).visited_flags() == old(self).visited_flags(),
            final(self).cand_lists() == old(self).cand_lists(),
    ;

    /// Returns the node order of the tour from some node on, read forward or
    /// backward; each kind of tour says which (`order_view`).
    fn tour_order(&self) -> (r: TourOrder)
        requires
            self.valid(),
        ensures
            r@ == self.order_view(),
            r@.len() == self.tour_view().len(),
            crate::tour::cycle::is_tour(r@),
            (forall|v: usize| v < r@.len() ==> #[trigger] next_in(r@, v) == next_in(self.tour_view(), v)) || (forall|
                v: usize,
            |
                v < r@.len() ==> #[trigger] next_in(r@, v) == prev_in(self.tour_view(), v)),
    ;

    /// Clears the visited flag of every node.
    fn reset(&mut self)
        requires
            old(self).valid(),
        ensures
            final(self).valid(),
            final(self).tour_view() == old(self).tour_view(),
            final(self).visited_flags() == Seq::new(old(self).tour_view().len(), |i: int| false),
            final(self).cand_lists() == old(self).cand_lists(),
    ;

    /// Returns the number of nodes in the tour.
    fn len(&self) -> (r: usize)
        requires
            self.valid(),
        ensures
            r == self.tour_view().len(),
    ;

    /// Sets the visited flag of a node; nothing happens for an index off the tour.
    fn set_visited(&mut self, index: usize, flag: bool)
        requires
            old(self).valid(),
        ensures
            final(self).valid(),
            final(self).tour_view() == old(self).tour_view(),
            final(self).visited_flags() == if index < old(self).tour_view().len() {
                old(self).visited_flags().update(index as int, flag)
            } else {
                old(self).visited_flags()
            },
            final(self).cand_lists() == old(self).cand_lists(),
    ;

    /// The visited flag of a node; false for an index off the tour.
    fn is_visited(&self, index: usize) -> (r: bool)
        requires
            self.valid(),
        ensures
            r == (index < self.tour_view().len() && self.visited_flags()[index as int]),
    ;

    /// Replaces the candidate list of a node; nothing happens for an index off the tour.
    fn set_candidates(&mut self, index: usize, candidates: Vec<TourNode>)
        requires
            old(self).valid(),
        ensures
            final(self).valid(),
            final(self).tour_view() == old(self).tour_view(),
            final(self).visited_flags() == old(self).visited_flags(),
            final(self).cand_lists() == if index < old(self).tour_view().len() {
                old(self).cand_lists().update(index as int, candidates@)
            } else {
                old(self).cand_lists()
            },
    ;

    /// The candidate list of a node.
    fn candidates(&self, index: usize) -> (r: &Vec<TourNode>)
        requires
            self.valid(),
            index < self.tour_view().len(),
        ensures
            r@ == self.cand_lists()[index as int],
    ;
}


impl Tour for Array {
    open spec fn flip_turns(&self, from_a: usize, to_a: usize, from_b: usize, to_b: usize) -> bool {
        Array::flip_turns(self, from_a, to_a, from_b, to_b)
    }

    open spec fn flip_leaves(&self, next: Self, from_a: usize, to_a: usize, from_b: usize, to_b: usize) -> bool {
        Array::flip_leaves(self, next, from_a, to_a, from_b, to_b)
    }

    /// The array hands out its nodes as it stores them.
    open spec fn order_view(&self) -> Seq<usize> {
        if self.is_reversed() {
            reversed(self@)
        } else {
            self@
        }
    }

    open spec fn tour_view(&self) -> Seq<usize> {
        self@
    }

    open spec fn valid(&self) -> bool {
        self.wf()
    }

    open spec fn visited_flags(&self) -> Seq<bool> {
        self.flags()
    }

    open spec fn cand_lists(&self) -> Seq<Seq<TourNode>> {
        self.cands()
    }

    proof fn lemma_valid(&self) {
        self.lemma_tour();
    }

    fn apply(&mut self, order: &TourOrder) -> (r: Result<(), UpdateTourError>) {
        Array::apply(self, order)
    }

    fn between(&self, from: &TourNode, mid: &TourNode, to: &TourNode) -> (r: bool) {
        Array::between(self, from, mid, to)
    }

    fn between_at(&self, from_index: usize, mid_index: usize, to_index: usize) -> (r: bool) {
        Array::between_at(self, from_index, mid_index, to_index)
    }

    fn flip_at(&mut self, from_a: usize, to_a: usize, from_b: usize, to_b: usize) {
        Array::flip_at(self, from_a, to_a, from_b, to_b)
    }

    fn flip(&mut self, from_a: &TourNode, to_a: &TourNode, from_b: &TourNode, to_b: &TourNode) {
        Array::flip(self, from_a, to_a, from_b, to_b)
    }

    fn get(&self, index: usize) -> (r: Option<TourNode>) {
        Array::get(self, index)
    }

    fn relation(&self, base: &TourNode, targ: &TourNode) -> (r: NodeRel) {
        Array::relation(self, base, targ)
    }

    fn successor(&self, kin: &TourNode) -> (r: Option<TourNode>) {
        Array::successor(self, kin)
    }

    fn successor_at(&self, kin_index: usize) -> (r: Option<TourNode>) {
        Array::successor_at(self, kin_index)
    }

    fn predecessor(&self, kin: &TourNode) -> (r: Option<TourNode>) {
        Array::predecessor(self, kin)
    }

    fn predecessor_at(&self, kin_index: usize) -> (r: Option<TourNode>) {
        Array::predecessor_at(self, kin_index)
    }

    fn rev(&mut self) {
        Array::rev(self)
    }

    fn tour_order(&self) -> (r: TourOrder) {
        let r = Array::tour_order(self);
        proof {
            self.lemma_tour();
            if self.is_reversed() {
                lemma_reversed_tour(self@);
                assert forall|v: usize| v < r@.len() implies #[trigger] next_in(r@, v) == prev_in(self.tour_view(), v) by {
                    lemma_next_reversed(self@, v);
                }
            }
        }
        r
    }

    fn reset(&mut self) {
        Array::reset(self)
    }

    fn len(&self) -> (r: usize) {
        Array::len(self)
    }

    fn set_visited(&mut self, index: usize, flag: bool) {
        Array::set_visited(self, index, flag)
    }

    fn is_visited(&self, index: usize) -> (r: bool) {
        Array::is_visited(self, index)
    }

    fn set_candidates(&mut self, index: usize, candidates: Vec<TourNode>) {
        Array::set_candidates(self, index, candidates)
    }

    fn candidates(&self, index: usize) -> (r: &Vec<TourNode>) {
        Array::candidates(self, index)
    }
}

impl Tour for TwoLevelList {
    open spec fn flip_turns(&self, from_a: usize, to_a: usize, from_b: usize, to_b: usize) -> bool {
        TwoLevelList::flip_turns(self, from_a, to_a, from_b, to_b)
    }

    open spec fn flip_leaves(&self, next: Self, from_a: usize, to_a: usize, from_b: usize, to_b: usize) -> bool {
        TwoLevelList::flip_leaves(self, next, from_a, to_a, from_b, to_b)
    }

    /// The list hands out its tour forward from node 0 on.
    open spec fn order_view(&self) -> Seq<usize> {
        rotate_from(self@, pos_of(self@, 0))
    }

    open spec fn tour_view(&self) -> Seq<usize> {
        self@
    }

    open spec fn valid(&self) -> bool {
        self.wf()
    }

    open spec fn visited_flags(&self) -> Seq<bool> {
        self.flags()
    }

    open spec fn cand_lists(&self) -> Seq<Seq<TourNode>> {
        self.cands()
    }

    proof fn lemma_valid(&self) {
        self.lemma_tour();
    }

    fn apply(&mut self, order: &TourOrder) -> (r: Result<(), UpdateTourError>) {
        TwoLevelList::apply(self, order)
    }

    fn between(&self, from: &TourNode, mid: &TourNode, to: &TourNode) -> (r: bool) {
        TwoLevelList::between(self, from, mid, to)
    }

    fn between_at(&self, from_index: usize, mid_index: usize, to_index: usize) -> (r: bool) {
        TwoLevelList::between_at(self, from_index, mid_index, to_index)
    }

    fn flip_at(&mut self, from_a: usize, to_a: usize, from_b: usize, to_b: usize) {
        TwoLevelList::flip_at(self, from_a, to_a, from_b, to_b)
    }

    fn flip(&mut self, from_a: &TourNode, to_a: &TourNode, from_b: &TourNode, to_b: &TourNode) {
        TwoLevelList::flip(self, from_a, to_a, from_b, to_b)
    }

    fn get(&self, index: usize) -> (r: Option<TourNode>) {
        TwoLevelList::get(self, index)
    }

    fn relation(&self, base: &TourNode, targ: &TourNode) -> (r: NodeRel) {
        TwoLevelList::relation(self, base, targ)
    }

    fn successor(&self, kin: &TourNode) -> (r: Option<TourNode>) {
        TwoLevelList::successor(self, kin)
    }

    fn successor_at(&self, kin_index: usize) -> (r: Option<TourNode>) {
        TwoLevelList::successor_at(self, kin_index)
    }

    fn predecessor(&self, kin: &TourNode) -> (r: Option<TourNode>) {
        TwoLevelList::predecessor(self, kin)
    }

    fn predecessor_at(&self, kin_index: usize) -> (r: Option<TourNode>) {
        TwoLevelList::predecessor_at(self, kin_index)
    }

    fn rev(&mut self) {
        TwoLevelList::rev(self)
    }

    fn tour_order(&self) -> (r: TourOrder) {
        let r = TwoLevelList::tour_order(self);
        proof {
            self.lemma_tour();
            if self@.len() > 0 {
                lemma_pos_in_tour(self@, 0);
                lemma_rotate_tour(self@, pos_of(self@, 0));
            }
        }
        r
    }

    fn reset(&mut self) {
        TwoLevelList::reset(self)
    }

    fn len(&self) -> (r: usize) {
        TwoLevelList::len(self)
    }

    fn set_visited(&mut self, index: usize, flag: bool) {
        TwoLevelList::set_visited(self, index, flag)
    }

    fn is_visited(&self, index: usize) -> (r: bool) {
        TwoLevelList::is_visited(self, index)
    }

    fn set_candidates(&mut self, index: usize, candidates: Vec<TourNode>) {
        TwoLevelList::set_candidates(self, index, candidates)
    }

    fn candidates(&self, index: usize) -> (r: &Vec<TourNode>) {
        TwoLevelList::candidates(self, index)
    }
}


/// A tour of either kind; each operation goes to the tour it holds.
pub enum TourImpltor {
    Array(Array),
    TwoLevelList(TwoLevelList),
}

impl From<Array> for TourImpltor {
    fn from(t: Array) -> (r: TourImpltor)
        ensures
            r == TourImpltor::Array(t),
    {
        TourImpltor::Array(t)
    }
}

impl vstd::std_specs::convert::FromSpecImpl<Array> for TourImpltor {
    open spec fn obeys_from_spec() -> bool {
        true
    }

    open spec fn from_spec(v: Array) -> TourImpltor {
        TourImpltor::Array(v)
    }
}

impl From<TwoLevelList> for TourImpltor {
    fn from(t: TwoLevelList) -> (r: TourImpltor)
        ensures
            r == TourImpltor::TwoLevelList(t),
    {
        TourImpltor::TwoLevelList(t)
    }
}

impl vstd::std_specs::convert::FromSpecImpl<TwoLevelList> for TourImpltor {
    open spec fn obeys_from_spec() -> bool {
        true
    }

    open spec fn from_spec(v: TwoLevelList) -> TourImpltor {
        TourImpltor::TwoLevelList(v)
    }
}

impl Tour for TourImpltor {
    open spec fn flip_turns(&self, from_a: usize, to_a: usize, from_b: usize, to_b: usize) -> bool {
        match self {
            TourImpltor::Array(t) => t.flip_turns(from_a, to_a, from_b, to_b),
            TourImpltor::TwoLevelList(t) => t.flip_turns(from_a, to_a, from_b, to_b),
        }
    }

    open spec fn flip_leaves(&self, next: Self, from_a: usize, to_a: usize, from_b: usize, to_b: usize) -> bool {
        match (*self, next) {
            (TourImpltor::Array(t), TourImpltor::Array(u)) => t.flip_leaves(u, from_a, to_a, from_b, to_b),
            (TourImpltor::TwoLevelList(t), TourImpltor::TwoLevelList(u)) => t.flip_leaves(u, from_a, to_a, from_b, to_b),
            _ => false,
        }
    }

    open spec fn order_view(&self) -> Seq<usize> {
        match self {
            TourImpltor::Array(t) => t.order_view(),
            TourImpltor::TwoLevelList(t) => t.order_view(),
        }
    }

    open spec fn tour_view(&self) -> Seq<usize> {
        match self {
            TourImpltor::Array(t) => t.tour_view(),
            TourImpltor::TwoLevelList(t) => t.tour_view(),
        }
    }

    open spec fn valid(&self) -> bool {
        match self {
            TourImpltor::Array(t) => t.valid(),
            TourImpltor::TwoLevelList(t) => t.valid(),
        }
    }

    open spec fn visited_flags(&self) -> Seq<bool> {
        match self {
            TourImpltor::Array(t) => t.visited_flags(),
            TourImpltor::TwoLevelList(t) => t.visited_flags(),
        }
    }

    open spec fn cand_lists(&self) -> Seq<Seq<TourNode>> {
        match self {
            TourImpltor::Array(t) => t.cand_lists(),
            TourImpltor::TwoLevelList(t) => t.cand_lists(),
        }
    }

    proof fn lemma_valid(&self) {
        match self {
            TourImpltor::Array(t) => t.lemma_valid(),
            TourImpltor::TwoLevelList(t) => t.lemma_valid(),
        }
    }

    fn apply(&mut self, order: &TourOrder) -> (r: Result<(), UpdateTourError>) {
        match self {
            TourImpltor::Array(t) => t.apply(order),
            TourImpltor::TwoLevelList(t) => t.apply(order),
        }
    }

    fn between(&self, from: &TourNode, mid: &TourNode, to: &TourNode) -> (r: bool) {
        match self {
            TourImpltor::Array(t) => t.between(from, mid, to),
            TourImpltor::TwoLevelList(t) => t.between(from, mid, to),
        }
    }

    fn between_at(&self, from_index: usize, mid_index: usize, to_index: usize) -> (r: bool) {
        match self {
            TourImpltor::Array(t) => t.between_at(from_index, mid_index, to_index),
            TourImpltor::TwoLevelList(t) => t.between_at(from_index, mid_index, to_index),
        }
    }

    fn flip_at(&mut self, from_a: usize, to_a: usize, from_b: usize, to_b: usize) {
        match self {
            TourImpltor::Array(t) => t.flip_at(from_a, to_a, from_b, to_b),
            TourImpltor::TwoLevelList(t) => t.flip_at(from_a, to_a, from_b, to_b),
        }
    }

    fn flip(&mut self, from_a: &TourNode, to_a: &TourNode, from_b: &TourNode, to_b: &TourNode) {
        match self {
            TourImpltor::Array(t) => t.flip(from_a, to_a, from_b, to_b),
            TourImpltor::TwoLevelList(t) => t.flip(from_a, to_a, from_b, to_b),
        }
    }

    fn get(&self, index: usize) -> (r: Option<TourNode>) {
        match self {
            TourImpltor::Array(t) => t.get(index),
            TourImpltor::TwoLevelList(t) => t.get(index),
        }
    }

    fn relation(&self, base: &TourNode, targ: &TourNode) -> (r: NodeRel) {
        match self {
            TourImpltor::Array(t) => t.relation(base, targ),
            TourImpltor::TwoLevelList(t) => t.relation(base, targ),
        }
    }

    fn successor(&self, kin: &TourNode) -> (r: Option<TourNode>) {
        match self {
            TourImpltor::Array(t) => t.successor(kin),
            TourImpltor::TwoLevelList(t) => t.successor(kin),
        }
    }

    fn successor_at(&self, kin_index: usize) -> (r: Option<TourNode>) {
        match self {
            TourImpltor::Array(t) => t.successor_at(kin_index),
            TourImpltor::TwoLevelList(t) => t.successor_at(kin_index),
        }
    }

    fn predecessor(&self, kin: &TourNode) -> (r: Option<TourNode>) {
        match self {
            TourImpltor::Array(t) => t.predecessor(kin),
            TourImpltor::TwoLevelList(t) => t.predecessor(kin),
        }
    }

    fn predecessor_at(&self, kin_index: usize) -> (r: Option<TourNode>) {
        match self {
            TourImpltor::Array(t) => t.predecessor_at(kin_index),
            TourImpltor::TwoLevelList(t) => t.predecessor_at(kin_index),
        }
    }

    fn rev(&mut self) {
        match self {
            TourImpltor::Array(t) => t.rev(),
            TourImpltor::TwoLevelList(t) => t.rev(),
        }
    }

    fn tour_order(&self) -> (r: TourOrder) {
        match self {
            TourImpltor::Array(t) => Tour::tour_order(t),
            TourImpltor::TwoLevelList(t) => Tour::tour_order(t),
        }
    }

    fn reset(&mut self) {
        match self {
            TourImpltor::Array(t) => t.reset(),
            TourImpltor::TwoLevelList(t) => t.reset(),
        }
    }

    fn len(&self) -> (r: usize) {
        match self {
            TourImpltor::Array(t) => t.len(),
            TourImpltor::TwoLevelList(t) => t.len(),
        }
    }

    fn set_visited(&mut self, index: usize, flag: bool) {
        match self {
            TourImpltor::Array(t) => t.set_visited(index, flag),
            TourImpltor::TwoLevelList(t) => t.set_visited(index, flag),
        }
    }

    fn is_visited(&self, index: usize) -> (r: bool) {
        match self {
            TourImpltor::Array(t) => t.is_visited(index),
            TourImpltor::TwoLevelList(t) => t.is_visited(index),
        }
    }

    fn set_candidates(&mut self, index: usize, candidates: Vec<TourNode>) {
        match self {
            TourImpltor::Array(t) => t.set_candidates(index, candidates),
            TourImpltor::TwoLevelList(t) => t.set_candidates(index, candidates),
        }
    }

    fn candidates(&self, index: usize) -> (r: &Vec<TourNode>) {
        match self {
            TourImpltor::Array(t) => t.candidates(index),
            TourImpltor::TwoLevelList(t) => t.candidates(index),
        }
    }
}

/// A two-level list hands out its tour starting at node 0 and going forward:
/// each node is followed by its successor on the tour.
pub proof fn law_list_order_forward(t: TwoLevelList)
    requires
        t.wf(),
        t@.len() > 0,
    ensures
        Tour::order_view(&t).len() == t@.len(),
        Tour::order_view(&t)[0] == 0,
        forall|v: usize| v < t@.len() ==> #[trigger] next_in(Tour::order_view(&t), v) == next_in(t@, v),
{
    t.lemma_tour();
    lemma_pos_in_tour(t@, 0);
    lemma_rotate_tour(t@, pos_of(t@, 0));
}

/// An array hands out its nodes as it stores them: forward, unless the tour
/// is reversed, and then each node is followed by its predecessor.
pub proof fn law_array_order_stored(t: Array)
    requires
        t.wf(),
    ensures
        Tour::order_view(&t).len() == t@.len(),
        !t.is_reversed() ==> Tour::order_view(&t) == t@,
        t.is_reversed() ==> forall|v: usize| v < t@.len() ==> #[trigger] next_in(Tour::order_view(&t), v) == prev_in(t@, v),
{
    t.lemma_tour();
    if t.is_reversed() {
        assert forall|v: usize| v < t@.len() implies #[trigger] next_in(Tour::order_view(&t), v) == prev_in(t@, v) by {
            lemma_next_reversed(t@, v);
        }
    }
}

} // verus!
