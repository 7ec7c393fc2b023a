//! A tour stored as a two-level doubly-linked list: the nodes are grouped
//! into segments, each of which can be reversed as a whole by flipping one
//! bit, and the segments are kept in a cyclic order given by their ranks.
//!
//! Segment `s` holds the nodes `items[s]`; read in the tour's physical
//! direction it is `items[s]` itself, or `items[s]` backwards when
//! `seg_rev[s]` is set. The segments follow each other by rank
//! (`order[r]` is the segment of rank `r`). The whole tour can be reversed
//! once more by the global flag `rev`.
use vstd::prelude::*;

use crate::tour::array::inverse_perms;
use vstd::arithmetic::div_mod::lemma_fundamental_div_mod_converse;
use crate::tour::cycle::{
    between_in, lemma_rev_block_tour, rev_block, is_perm, is_tour, lemma_between_mirror, lemma_between_shift, lemma_perm_is_tour,
    lemma_pos_in_tour, lemma_pos_of, lemma_pos_reversed, lemma_reversed_tour, next_in, pos_of,
    prev_in, rev_path, reversed, rotate_from, wrap, two_arcs, flipped, lemma_next_prev, lemma_next_reversed,
    lemma_reversed_rev_path, flip_result,
};
use crate::tour::{between, is_permutation, relation_spec, NodeRel, TourNode, TourOrder, UpdateTourError};

verus! {

pub struct TwoLevelList {
    groupsize: usize,
    seg_of: Vec<usize>,
    idx_of: Vec<usize>,
    items: Vec<Vec<usize>>,
    seg_rev: Vec<bool>,
    seg_rank: Vec<usize>,
    order: Vec<usize>,
    rev: bool,
    visited: Vec<bool>,
    candidates: Vec<Vec<TourNode>>,
    /// The tour in its physical direction (the direction of rank order).
    g: Ghost<Seq<usize>>,
    /// The position in `g` where the segment of rank 0 starts.
    base: Ghost<int>,
    /// `pre[r]` is the number of nodes in the segments of rank below `r`.
    pre: Ghost<Seq<int>>,
}

/// The segment layout of a list: for each node its segment and its place
/// there in physical direction, for each segment its length, direction bit
/// and rank, and the segment of each rank.
struct Layout {
    seg: Seq<int>,
    pos: Seq<int>,
    len: Seq<int>,
    srev: Seq<bool>,
    rank: Seq<int>,
    order: Seq<int>,
}

/// Cutting segment `s` before its place `o` moves the nodes before the cut
/// to the previous segment exactly when they are no more than the nodes
/// from the cut on; of a reversed segment, when they are more.
spec fn cut_to_prev(l: Layout, s: int, o: int) -> bool {
    if l.srev[s] {
        !(l.len[s] - o <= o)
    } else {
        o <= l.len[s] - o
    }
}

/// The neighbours of segment `s` in rank order: the previous one and the
/// next one.
spec fn neighbours(l: Layout, s: int) -> (int, int) {
    let k = l.len.len() as int;
    (l.order[wrap(l.rank[s] - 1, k)], l.order[wrap(l.rank[s] + 1, k)])
}

/// Where node `v` stands, as (segment, place), after segment `s` is cut
/// before its place `o`.
spec fn cut_place(l: Layout, s: int, o: int, v: int) -> (int, int) {
    let (ps, ns) = neighbours(l, s);
    let sv = l.seg[v];
    let ov = l.pos[v];
    if sv == s {
        if ov < o {
            if cut_to_prev(l, s, o) {
                (ps, l.len[ps] + ov)
            } else {
                (s, ov)
            }
        } else {
            if cut_to_prev(l, s, o) {
                (s, ov - o)
            } else {
                (ns, ov - o)
            }
        }
    } else if !cut_to_prev(l, s, o) && sv == ns {
        (ns, l.len[s] - o + ov)
    } else {
        (sv, ov)
    }
}

/// The layout after segment `s` is cut before its place `o`: the nodes on
/// one side of the cut join the neighbouring segment on that side. The
/// direction bits and the ranks stay.
spec fn cut_layout(l: Layout, s: int, o: int) -> Layout {
    let (ps, ns) = neighbours(l, s);
    let n = l.seg.len();
    let seg = Seq::new(n, |v: int| cut_place(l, s, o, v).0);
    let pos = Seq::new(n, |v: int| cut_place(l, s, o, v).1);
    if cut_to_prev(l, s, o) {
        Layout {
            seg,
            pos,
            len: l.len.update(ps, l.len[ps] + o).update(s, l.len[s] - o),
            srev: l.srev,
            rank: l.rank,
            order: l.order,
        }
    } else {
        Layout {
            seg,
            pos,
            len: l.len.update(s, o).update(ns, l.len[ns] + l.len[s] - o),
            srev: l.srev,
            rank: l.rank,
            order: l.order,
        }
    }
}

/// The layout after the places `i ..= j` of segment `s` are reversed: the
/// nodes there trade places, and the segment changes direction when that is
/// the whole of it.
spec fn mirror_layout(l: Layout, s: int, i: int, j: int) -> Layout {
    Layout {
        pos: Seq::new(
            l.pos.len(),
            |v: int|
                if l.seg[v] == s && i <= l.pos[v] <= j {
                    i + j - l.pos[v]
                } else {
                    l.pos[v]
                },
        ),
        srev: if i == 0 && j + 1 == l.len[s] {
            l.srev.update(s, !l.srev[s])
        } else {
            l.srev
        },
        ..l
    }
}

/// Segment `s` lies in the run of `cnt` segments from rank `ra` on.
spec fn in_run(l: Layout, ra: int, cnt: int, s: int) -> bool {
    wrap(l.rank[s] - ra, l.len.len() as int) < cnt
}

/// The rank that mirrors rank `r` in the run of `cnt` ranks from `ra` on.
spec fn mirror_rank(k: int, ra: int, cnt: int, r: int) -> int {
    wrap(ra + cnt - 1 - wrap(r - ra, k), k)
}

/// The layout after the run of `cnt` segments from rank `ra` on is
/// reversed: each segment of the run takes the mirrored rank and changes
/// direction, so that its nodes trade places end for end.
spec fn run_layout(l: Layout, ra: int, cnt: int) -> Layout {
    let k = l.len.len() as int;
    Layout {
        seg: l.seg,
        pos: Seq::new(
            l.pos.len(),
            |v: int|
                if in_run(l, ra, cnt, l.seg[v]) {
                    l.len[l.seg[v]] - 1 - l.pos[v]
                } else {
                    l.pos[v]
                },
        ),
        len: l.len,
        srev: Seq::new(
            l.srev.len(),
            |s: int|
                if in_run(l, ra, cnt, s) {
                    !l.srev[s]
                } else {
                    l.srev[s]
                },
        ),
        rank: Seq::new(
            l.rank.len(),
            |s: int|
                if in_run(l, ra, cnt, s) {
                    mirror_rank(k, ra, cnt, l.rank[s])
                } else {
                    l.rank[s]
                },
        ),
        order: Seq::new(
            l.order.len(),
            |r: int|
                if wrap(r - ra, k) < cnt {
                    l.order[mirror_rank(k, ra, cnt, r)]
                } else {
                    l.order[r]
                },
        ),
    }
}

/// The path from node `a` to node `b` lies inside one segment.
spec fn inside(l: Layout, a: int, b: int) -> bool {
    l.seg[a] == l.seg[b] && l.pos[a] <= l.pos[b]
}

/// How many rank steps lead from the segment of `a` to that of `b`.
spec fn rank_gap(l: Layout, a: int, b: int) -> int {
    wrap(l.rank[l.seg[b]] - l.rank[l.seg[a]], l.len.len() as int)
}

/// Which path a 2-opt move on the arcs `(p1, q1)` and `(p2, q2)` reverses
/// once both arcs are cut: `true` for `q1 .. p2`, `false` for `q2 .. p1`.
/// A path inside one segment is taken first; otherwise the one whose run
/// of segments is not longer, `q1 .. p2` on ties.
spec fn settle(l: Layout, p1: int, q1: int, p2: int, q2: int) -> bool {
    if inside(l, q2, p1) {
        false
    } else if inside(l, q1, p2) {
        true
    } else {
        rank_gap(l, q1, p2) <= rank_gap(l, q2, p1)
    }
}

/// The layout after the segments are cut at the heads of the arcs
/// `(p1, q1)` and `(p2, q2)` that run inside a segment: first at `q1`, then
/// at `q2`.
spec fn cut_arcs(l: Layout, p1: int, q1: int, p2: int, q2: int) -> Layout {
    let l1 = if l.seg[p1] == l.seg[q1] {
        cut_layout(l, l.seg[q1], l.pos[q1])
    } else {
        l
    };
    if l.seg[p2] == l.seg[q2] {
        cut_layout(l1, l1.seg[q2], l1.pos[q2])
    } else {
        l1
    }
}

/// The layout after the 2-opt move on the arcs `(p1, q1)` and `(p2, q2)`
/// once both arcs are cut: the path that `settle` picks is reversed, inside
/// its segment or as a run of whole segments.
spec fn settle_layout(l: Layout, p1: int, q1: int, p2: int, q2: int) -> Layout {
    if inside(l, q2, p1) {
        mirror_layout(l, l.seg[q2], l.pos[q2], l.pos[p1])
    } else if inside(l, q1, p2) {
        mirror_layout(l, l.seg[q1], l.pos[q1], l.pos[p2])
    } else if rank_gap(l, q1, p2) <= rank_gap(l, q2, p1) {
        run_layout(l, l.rank[l.seg[q1]], rank_gap(l, q1, p2) + 1)
    } else {
        run_layout(l, l.rank[l.seg[q2]], rank_gap(l, q2, p1) + 1)
    }
}

/// The layout after the 2-opt move on the arcs `(p1, q1)` and `(p2, q2)`:
/// a path inside one segment is reversed there; otherwise the segments are
/// first cut at the arcs.
spec fn flip_layout(l: Layout, p1: int, q1: int, p2: int, q2: int) -> Layout {
    if inside(l, q2, p1) || inside(l, q1, p2) {
        settle_layout(l, p1, q1, p2, q2)
    } else {
        settle_layout(cut_arcs(l, p1, q1, p2, q2), p1, q1, p2, q2)
    }
}

/// Which path the 2-opt move on the arcs `(p1, q1)` and `(p2, q2)`
/// reverses, `true` for `q1 .. p2` and `false` for `q2 .. p1`: a path that
/// lies inside one segment if there is one, otherwise the choice that
/// `settle` makes once the arcs are cut.
spec fn turn(l: Layout, p1: int, q1: int, p2: int, q2: int) -> bool {
    if inside(l, q2, p1) {
        false
    } else if inside(l, q1, p2) {
        true
    } else {
        settle(cut_arcs(l, p1, q1, p2, q2), p1, q1, p2, q2)
    }
}

/// Two rank tables that agree have the same order of segments.
proof fn lemma_order_of_rank(o1: Seq<usize>, r1: Seq<usize>, o2: Seq<usize>, r2: Seq<usize>)
    requires
        inverse_perms(o1, r1),
        inverse_perms(o2, r2),
        r1 == r2,
    ensures
        o1 == o2,
{
    assert forall|p: int| 0 <= p < o1.len() implies o1[p] == o2[p] by {
        let s = o2[p] as int;
        assert(r2[s] == p);
        assert(o1[r1[s] as int] == s);
    }
    assert(o1 =~= o2);
}

impl View for TwoLevelList {
    type V = Seq<usize>;

    /// The tour, read in its forward direction.
    closed spec fn view(&self) -> Seq<usize> {
        if self.rev {
            reversed(self.g@)
        } else {
            self.g@
        }
    }
}

impl TwoLevelList {
    spec fn n(&self) -> int {
        self.seg_of.len() as int
    }

    /// What the layout says of node `v`.
    proof fn lemma_shape_at(&self, v: int)
        requires
            self.wf(),
            0 <= v < self.n(),
        ensures
            self.shape().seg[v] == self.seg_of[v] as int,
            self.shape().pos[v] == self.oidx(v),
            self.shape().rank[self.seg_of[v] as int] == self.seg_rank[self.seg_of[v] as int] as int,
            self.shape().len.len() == self.k(),
    {
    }

    /// The segment layout of the list.
    spec fn shape(&self) -> Layout {
        Layout {
            seg: Seq::new(self.n() as nat, |v: int| self.seg_of[v] as int),
            pos: Seq::new(self.n() as nat, |v: int| self.oidx(v)),
            len: Seq::new(self.k() as nat, |s: int| self.slen(s)),
            srev: self.seg_rev@,
            rank: Seq::new(self.k() as nat, |s: int| self.seg_rank[s] as int),
            order: Seq::new(self.k() as nat, |r: int| self.order[r] as int),
        }
    }

    spec fn k(&self) -> int {
        self.items.len() as int
    }

    spec fn slen(&self, s: int) -> int {
        self.items[s].len() as int
    }

    /// The position of node `v` inside its segment, in physical direction.
    spec fn oidx(&self, v: int) -> int {
        let s = self.seg_of[v] as int;
        if self.seg_rev[s] {
            self.slen(s) - 1 - self.idx_of[v]
        } else {
            self.idx_of[v] as int
        }
    }

    /// The node at position `o` of segment `s`, in physical direction.
    spec fn oat(&self, s: int, o: int) -> usize {
        if self.seg_rev[s] {
            self.items[s][self.slen(s) - 1 - o]
        } else {
            self.items[s][o]
        }
    }

    /// The number of nodes before node `v` when the tour is read in
    /// physical direction from the start of the segment of rank 0.
    spec fn upos(&self, v: int) -> int {
        self.pre@[self.seg_rank[self.seg_of[v] as int] as int] + self.oidx(v)
    }

    /// The position of node `v` in `g`.
    spec fn gpos(&self, v: int) -> int {
        wrap(self.base@ + self.upos(v), self.n())
    }

    pub closed spec fn wf(&self) -> bool {
        self.wf_struct() && self.wf_pos()
    }

    /// The segments and the ranks hold every node once, consistently with
    /// the per-node records.
    spec fn wf_struct(&self) -> bool {
        let n = self.n();
        let k = self.k();
        &&& self.groupsize > 0
        &&& self.idx_of.len() == n
        &&& self.visited.len() == n
        &&& self.candidates.len() == n
        &&& self.seg_rev.len() == k
        &&& inverse_perms(self.order@, self.seg_rank@)
        &&& self.order.len() == k
        &&& (n == 0) == (k == 0)
        &&& self.pre@.len() == k + 1
        &&& self.pre@[0] == 0
        &&& self.pre@[k] == n
        &&& forall|r: int| 0 <= r < k ==> #[trigger] self.pre@[r + 1] == self.pre@[r] + self.slen(
            self.order[r] as int,
        )
        &&& forall|s: int| 0 <= s < k ==> #[trigger] self.slen(s) > 0
        &&& forall|s: int, j: int|
            0 <= s < k && 0 <= j < self.slen(s) ==> #[trigger] self.items[s][j] < n
                && self.seg_of[self.items[s][j] as int] == s && self.idx_of[self.items[s][j] as int] == j
        &&& forall|v: int|
            0 <= v < n ==> #[trigger] self.seg_of[v] < k && self.idx_of[v] < self.slen(self.seg_of[v] as int)
                && self.items[self.seg_of[v] as int][self.idx_of[v] as int] == v
    }

    /// The tour `g` holds each node at the place the segments give it.
    spec fn wf_pos(&self) -> bool {
        let n = self.n();
        &&& self.g@.len() == n
        &&& 0 <= self.base@ && (n == 0 || self.base@ < n)
        &&& is_tour(self.g@)
        &&& forall|v: int| 0 <= v < n ==> #[trigger] self.g@[self.gpos(v)] == v
    }

    /// The number of nodes per segment that the list was made with.
    pub closed spec fn group_size(&self) -> int {
        self.groupsize as int
    }

    /// The nodes are cut, in the order `ord`, into runs of `group_size()`
    /// nodes, one segment to a run (the last run may be shorter): the node
    /// at place `p` of `ord` stands at place `p % group_size()` of the
    /// segment of rank `p / group_size()`, and there are
    /// `ceil(ord.len() / group_size())` segments, each stored forward and
    /// holding `group_size()` nodes but the last one.
    pub closed spec fn in_groups(&self, ord: Seq<usize>) -> bool {
        let g = self.groupsize as int;
        &&& ord.len() == self.n()
        &&& self.k() == (ord.len() + g - 1) / g
        &&& forall|s: int| 0 <= s < self.k() ==> !(#[trigger] self.seg_rev[s])
        &&& forall|s: int|
            0 <= s < self.k() ==> #[trigger] self.slen(s) == if self.seg_rank[s] + 1 < self.k() {
                g
            } else {
                ord.len() - (self.k() - 1) * g
            }
        &&& forall|p: int|
            0 <= p < ord.len() ==> #[trigger] self.seg_rank[self.seg_of[ord[p] as int] as int] == p / g && self.oidx(
                ord[p] as int,
            ) == p % g
    }

    /// The rank of the segment that holds node `v`.
    pub closed spec fn segment_rank_of(&self, v: int) -> int {
        self.seg_rank[self.seg_of[v] as int] as int
    }

    /// The place of node `v` in its segment, in the direction in which the
    /// segments follow each other by rank.
    pub closed spec fn place_of(&self, v: int) -> int {
        self.oidx(v)
    }

    /// The number of segments.
    pub closed spec fn segment_count(&self) -> int {
        self.k()
    }

    /// The path from node `a` to node `b`, in the direction in which the
    /// segments follow each other, lies inside one segment.
    pub open spec fn in_one_segment(&self, a: usize, b: usize) -> bool {
        self.segment_rank_of(a as int) == self.segment_rank_of(b as int) && self.place_of(a as int) <= self.place_of(
            b as int,
        )
    }

    /// What `in_groups` says of the node at place `p` of the order.
    pub proof fn lemma_in_groups(&self, ord: Seq<usize>, p: int)
        requires
            self.wf(),
            self.in_groups(ord),
            0 <= p < ord.len(),
        ensures
            self.segment_count() == (ord.len() + self.group_size() - 1) / self.group_size(),
            self.segment_rank_of(ord[p] as int) == p / self.group_size(),
            self.place_of(ord[p] as int) == p % self.group_size(),
    {
    }

    /// A path between the arcs of a flip that lies inside one segment is
    /// the one `flip_at` reverses: read forward, the path `to_b .. from_a`
    /// before the path `to_a .. from_b`; on a reversed tour, where the
    /// segments are read the other way, `from_b .. to_a` before
    /// `from_a .. to_b`.
    pub proof fn lemma_flip_inside(&self, from_a: usize, to_a: usize, from_b: usize, to_b: usize)
        requires
            self.wf(),
            from_a < self@.len(),
            to_a < self@.len(),
            from_b < self@.len(),
            to_b < self@.len(),
        ensures
            !self.is_reversed() && self.in_one_segment(to_b, from_a) ==> !self.flip_turns(from_a, to_a, from_b, to_b),
            !self.is_reversed() && !self.in_one_segment(to_b, from_a) && self.in_one_segment(to_a, from_b)
                ==> self.flip_turns(from_a, to_a, from_b, to_b),
            self.is_reversed() && self.in_one_segment(from_b, to_a) ==> self.flip_turns(from_a, to_a, from_b, to_b),
            self.is_reversed() && !self.in_one_segment(from_b, to_a) && self.in_one_segment(from_a, to_b)
                ==> !self.flip_turns(from_a, to_a, from_b, to_b),
    {
        self.lemma_tour();
        self.lemma_same_segment(from_a as int, to_a as int);
        self.lemma_same_segment(from_a as int, to_b as int);
        self.lemma_same_segment(from_b as int, to_a as int);
        self.lemma_same_segment(from_b as int, to_b as int);
    }

    /// When no path between the arcs lies inside one segment and both arcs
    /// lead from one segment to another, `flip_at` reverses the path
    /// covered by the shorter run of segments, counted in ranks; on a tie
    /// the path `to_a .. from_b` (on a reversed tour, `to_b .. from_a`).
    pub proof fn lemma_flip_runs(&self, from_a: usize, to_a: usize, from_b: usize, to_b: usize)
        requires
            self.wf(),
            from_a < self@.len(),
            to_a < self@.len(),
            from_b < self@.len(),
            to_b < self@.len(),
            self.segment_rank_of(from_a as int) != self.segment_rank_of(to_a as int),
            self.segment_rank_of(from_b as int) != self.segment_rank_of(to_b as int),
        ensures
            !self.is_reversed() && !self.in_one_segment(to_b, from_a) && !self.in_one_segment(to_a, from_b)
                ==> self.flip_turns(from_a, to_a, from_b, to_b) == (wrap(
                self.segment_rank_of(from_b as int) - self.segment_rank_of(to_a as int),
                self.segment_count(),
            ) <= wrap(self.segment_rank_of(from_a as int) - self.segment_rank_of(to_b as int), self.segment_count())),
            self.is_reversed() && !self.in_one_segment(from_b, to_a) && !self.in_one_segment(from_a, to_b)
                ==> self.flip_turns(from_a, to_a, from_b, to_b) == !(wrap(
                self.segment_rank_of(to_b as int) - self.segment_rank_of(from_a as int),
                self.segment_count(),
            ) <= wrap(self.segment_rank_of(to_a as int) - self.segment_rank_of(from_b as int), self.segment_count())),
    {
        self.lemma_tour();
        self.lemma_same_segment(from_a as int, to_a as int);
        self.lemma_same_segment(from_a as int, to_b as int);
        self.lemma_same_segment(from_b as int, to_a as int);
        self.lemma_same_segment(from_b as int, to_b as int);
        let l = self.shape();
        assert(cut_arcs(l, from_a as int, to_a as int, from_b as int, to_b as int) == l);
        assert(cut_arcs(l, to_a as int, from_a as int, to_b as int, from_b as int) == l);
    }

    /// What a flip that reverses a path inside one segment leaves for later
    /// flips: every node keeps the rank of its segment, and the nodes of the
    /// path trade places end for end. (The forward case; the direction stays.)
    pub proof fn lemma_flip_leaves_inside(&self, next: TwoLevelList, from_a: usize, to_a: usize, from_b: usize, to_b: usize)
        requires
            self.wf(),
            next.wf(),
            next@.len() == self@.len(),
            from_a < self@.len(),
            to_a < self@.len(),
            from_b < self@.len(),
            to_b < self@.len(),
            self.flip_leaves(next, from_a, to_a, from_b, to_b),
            !self.is_reversed(),
            !self.in_one_segment(to_b, from_a),
            self.in_one_segment(to_a, from_b),
        ensures
            !next.is_reversed(),
            next.segment_count() == self.segment_count(),
            forall|v: int|
                0 <= v < self@.len() ==> #[trigger] next.segment_rank_of(v) == self.segment_rank_of(v) && next.place_of(v)
                    == if self.segment_rank_of(v) == self.segment_rank_of(to_a as int) && self.place_of(to_a as int)
                    <= self.place_of(v) <= self.place_of(from_b as int) {
                    self.place_of(to_a as int) + self.place_of(from_b as int) - self.place_of(v)
                } else {
                    self.place_of(v)
                },
    {
        self.lemma_tour();
        next.lemma_tour();
        self.lemma_same_segment(from_a as int, to_a as int);
        self.lemma_same_segment(from_a as int, to_b as int);
        self.lemma_same_segment(from_b as int, to_a as int);
        self.lemma_same_segment(from_b as int, to_b as int);
        let l = self.shape();
        let ln = next.shape();
        assert(ln == mirror_layout(l, l.seg[to_a as int], l.pos[to_a as int], l.pos[from_b as int]));
        assert(ln.len.len() == l.len.len());
        assert forall|v: int| 0 <= v < self@.len() implies #[trigger] next.segment_rank_of(v) == self.segment_rank_of(v)
            && next.place_of(v) == if self.segment_rank_of(v) == self.segment_rank_of(to_a as int) && self.place_of(
            to_a as int,
        ) <= self.place_of(v) <= self.place_of(from_b as int) {
            self.place_of(to_a as int) + self.place_of(from_b as int) - self.place_of(v)
        } else {
            self.place_of(v)
        } by {
            self.lemma_same_segment(v, to_a as int);
            next.lemma_same_segment(v, to_a as int);
            assert(ln.seg[v] == l.seg[v]);
            assert(ln.rank[l.seg[v]] == l.rank[l.seg[v]]);
        }
    }

    /// Two nodes share a segment exactly when their segments share a rank,
    /// and the layout records both.
    proof fn lemma_same_segment(&self, a: int, b: int)
        requires
            self.wf(),
            0 <= a < self.n(),
            0 <= b < self.n(),
        ensures
            (self.seg_of[a] == self.seg_of[b]) == (self.segment_rank_of(a) == self.segment_rank_of(b)),
            self.shape().seg[a] == self.seg_of[a] as int,
            self.shape().seg[b] == self.seg_of[b] as int,
            self.shape().pos[a] == self.place_of(a),
            self.shape().pos[b] == self.place_of(b),
            self.shape().rank[self.seg_of[a] as int] == self.segment_rank_of(a),
            self.shape().rank[self.seg_of[b] as int] == self.segment_rank_of(b),
            self.shape().len.len() == self.segment_count(),
    {
        self.lemma_shape_at(a);
        self.lemma_shape_at(b);
        self.lemma_node(a);
        self.lemma_node(b);
        let sa = self.seg_of[a] as int;
        let sb = self.seg_of[b] as int;
        assert(self.order[self.seg_rank[sa] as int] == sa);
        assert(self.order[self.seg_rank[sb] as int] == sb);
    }

    /// Whether the tour is read against the direction in which it is stored
    /// (after an odd number of `rev` calls since it was last laid out).
    pub closed spec fn is_reversed(&self) -> bool {
        self.rev
    }

    /// The visited flag of each node.
    pub closed spec fn flags(&self) -> Seq<bool> {
        self.visited@
    }

    /// The candidate list of each node.
    pub closed spec fn cands(&self) -> Seq<Seq<TourNode>> {
        Seq::new(self.candidates.len() as nat, |i: int| self.candidates[i]@)
    }

    /// The parts of the list that the tour's shape depends on.
    spec fn same_shape(&self, other: &TwoLevelList) -> bool {
        &&& self.groupsize == other.groupsize
        &&& self.seg_of == other.seg_of
        &&& self.idx_of == other.idx_of
        &&& self.items == other.items
        &&& self.seg_rev == other.seg_rev
        &&& self.seg_rank == other.seg_rank
        &&& self.order == other.order
        &&& self.g == other.g
        &&& self.base == other.base
        &&& self.pre == other.pre
    }

    /// Changing what the shape does not depend on keeps a list well formed.
    proof fn lemma_frame(&self, other: &TwoLevelList)
        requires
            self.wf(),
            self.same_shape(other),
            other.visited.len() == self.visited.len(),
            other.candidates.len() == self.candidates.len(),
        ensures
            other.wf(),
    {
        assert forall|v: int| 0 <= v < other.n() implies #[trigger] other.g@[other.gpos(v)] == v by {
            assert(self.g@[self.gpos(v)] == v);
        }
        assert forall|r: int| 0 <= r < other.k() implies #[trigger] other.pre@[r + 1] == other.pre@[r] + other.slen(other.order[r] as int) by {
            assert(self.pre@[r + 1] == self.pre@[r] + self.slen(self.order[r] as int));
        }
        assert forall|s: int| 0 <= s < other.k() implies #[trigger] other.slen(s) > 0 by {
            assert(self.slen(s) > 0);
        }
    }

    /// The prefix counts grow with the rank.
    proof fn lemma_pre_mono(&self, r1: int, r2: int)
        requires
            self.wf(),
            0 <= r1 <= r2 <= self.k(),
        ensures
            self.pre@[r1] <= self.pre@[r2],
            r1 < r2 ==> self.pre@[r1] + self.slen(self.order[r1] as int) <= self.pre@[r2],
        decreases r2 - r1,
    {
        if r1 < r2 {
            self.lemma_pre_mono(r1 + 1, r2);
        }
    }

    /// Where a node stands, and what stands there.
    proof fn lemma_node(&self, v: int)
        requires
            self.wf(),
            0 <= v < self.n(),
        ensures
            0 <= self.oidx(v) < self.slen(self.seg_of[v] as int),
            self.oat(self.seg_of[v] as int, self.oidx(v)) == v,
            0 <= self.upos(v) < self.n(),
            self.pre@[self.seg_rank[self.seg_of[v] as int] as int] <= self.upos(v) < self.pre@[self.seg_rank[self.seg_of[v] as int] as int + 1],
            0 <= self.gpos(v) < self.n(),
            self.g@[self.gpos(v)] == v,
            pos_of(self.g@, v as usize) == self.gpos(v),
            self.order[self.seg_rank[self.seg_of[v] as int] as int] == self.seg_of[v],
    {
        let s = self.seg_of[v] as int;
        assert(0 <= s < self.k());
        let r = self.seg_rank[s] as int;
        assert(0 <= r < self.k());
        assert(self.order[r] == s);
        assert(0 <= self.oidx(v) < self.slen(s));
        self.lemma_pre_mono(r + 1, self.k());
        self.lemma_pre_mono(0, r);
        assert(self.pre@[r + 1] == self.pre@[r] + self.slen(s));
        lemma_pos_of(self.g@, self.gpos(v));
    }

    /// The node at a given place of a segment, and where it stands.
    proof fn lemma_slot(&self, s: int, o: int)
        requires
            self.wf(),
            0 <= s < self.k(),
            0 <= o < self.slen(s),
        ensures
            self.oat(s, o) < self.n(),
            self.seg_of[self.oat(s, o) as int] == s,
            self.oidx(self.oat(s, o) as int) == o,
            self.gpos(self.oat(s, o) as int) == wrap(self.base@ + self.pre@[self.seg_rank[s] as int] + o, self.n()),
    {
    }

    /// A well-formed list is a tour over its nodes.
    pub proof fn lemma_tour(&self)
        requires
            self.wf(),
        ensures
            is_tour(self@),
            self.flags().len() == self@.len(),
            self.cands().len() == self@.len(),
    {
        lemma_reversed_tour(self.g@);
    }

    /// Inside a segment, the successor of a node is the next node of the segment.
    proof fn lemma_next_slot(&self, v: int)
        requires
            self.wf(),
            0 <= v < self.n(),
            self.oidx(v) + 1 < self.slen(self.seg_of[v] as int),
        ensures
            next_in(self.g@, v as usize) == self.oat(self.seg_of[v] as int, self.oidx(v) + 1),
    {
        self.lemma_node(v);
        let s = self.seg_of[v] as int;
        let o = self.oidx(v);
        self.lemma_slot(s, o + 1);
        let w = self.oat(s, o + 1);
        assert(self.gpos(w as int) == wrap(self.gpos(v) + 1, self.n()));
        assert(self.g@[self.gpos(w as int)] == w);
    }

    /// At the end of a segment, the successor of a node starts the segment of the next rank.
    proof fn lemma_next_block(&self, v: int)
        requires
            self.wf(),
            0 <= v < self.n(),
            self.oidx(v) + 1 == self.slen(self.seg_of[v] as int),
        ensures
            ({
                let rk = self.seg_rank[self.seg_of[v] as int] as int;
                let r2 = if rk + 1 == self.k() { 0 } else { rk + 1 };
                next_in(self.g@, v as usize) == self.oat(self.order[r2] as int, 0)
            }),
    {
        self.lemma_node(v);
        let s = self.seg_of[v] as int;
        let rk = self.seg_rank[s] as int;
        let r2 = if rk + 1 == self.k() { 0 } else { rk + 1 };
        let t = self.order[r2] as int;
        assert(self.pre@[rk + 1] == self.pre@[rk] + self.slen(s));
        assert(self.slen(t) > 0);
        self.lemma_slot(t, 0);
        let w = self.oat(t, 0);
        assert(self.gpos(w as int) == wrap(self.gpos(v) + 1, self.n()));
        assert(self.g@[self.gpos(w as int)] == w);
    }

    /// Inside a segment, the predecessor of a node is the previous node of the segment.
    proof fn lemma_prev_slot(&self, v: int)
        requires
            self.wf(),
            0 <= v < self.n(),
            self.oidx(v) > 0,
        ensures
            prev_in(self.g@, v as usize) == self.oat(self.seg_of[v] as int, self.oidx(v) - 1),
    {
        self.lemma_node(v);
        let s = self.seg_of[v] as int;
        let o = self.oidx(v);
        self.lemma_slot(s, o - 1);
        let w = self.oat(s, o - 1);
        assert(self.gpos(w as int) == wrap(self.gpos(v) - 1, self.n()));
        assert(self.g@[self.gpos(w as int)] == w);
    }

    /// The node that starts segment `t` in physical direction.
    fn first_of(&self, t: usize) -> (r: usize)
        requires
            self.wf(),
            t < self.k(),
        ensures
            r == self.oat(t as int, 0),
    {
        let l = self.items[t].len();
        proof {
            assert(self.slen(t as int) > 0);
        }
        if self.seg_rev[t] {
            self.items[t][l - 1]
        } else {
            self.items[t][0]
        }
    }

    /// The node that ends segment `t` in physical direction.
    fn last_of(&self, t: usize) -> (r: usize)
        requires
            self.wf(),
            t < self.k(),
        ensures
            r == self.oat(t as int, self.slen(t as int) - 1),
    {
        let l = self.items[t].len();
        proof {
            assert(self.slen(t as int) > 0);
        }
        if self.seg_rev[t] {
            self.items[t][0]
        } else {
            self.items[t][l - 1]
        }
    }

    /// The successor of node `v` in physical direction.
    fn next_g(&self, v: usize) -> (r: usize)
        requires
            self.wf(),
            v < self.n(),
        ensures
            r == next_in(self.g@, v),
            r < self.n(),
    {
        let s = self.seg_of[v];
        let j = self.idx_of[v];
        let l = self.items[s].len();
        proof {
            self.lemma_node(v as int);
        }
        let ghost o = self.oidx(v as int);
        let ghost rk = self.seg_rank[s as int] as int;
        if self.seg_rev[s] {
            if j > 0 {
                proof {
                    self.lemma_next_slot(v as int);
                }
                return self.items[s][j - 1];
            }
        } else {
            if j + 1 < l {
                proof {
                    self.lemma_next_slot(v as int);
                }
                return self.items[s][j + 1];
            }
        }
        let k = self.order.len();
        let r = self.seg_rank[s];
        let r2 = if r + 1 == k {
            0
        } else {
            r + 1
        };
        let t = self.order[r2];
        proof {
            self.lemma_next_block(v as int);
        }
        self.first_of(t)
    }

    /// The predecessor of node `v` in physical direction.
    fn prev_g(&self, v: usize) -> (r: usize)
        requires
            self.wf(),
            v < self.n(),
        ensures
            r == prev_in(self.g@, v),
            r < self.n(),
    {
        let s = self.seg_of[v];
        let j = self.idx_of[v];
        let l = self.items[s].len();
        proof {
            self.lemma_node(v as int);
        }
        let ghost o = self.oidx(v as int);
        let ghost rk = self.seg_rank[s as int] as int;
        if self.seg_rev[s] {
            if j + 1 < l {
                proof {
                    self.lemma_prev_slot(v as int);
                }
                return self.items[s][j + 1];
            }
        } else {
            if j > 0 {
                proof {
                    self.lemma_prev_slot(v as int);
                }
                return self.items[s][j - 1];
            }
        }
        let k = self.order.len();
        let r = self.seg_rank[s];
        let r2 = if r == 0 {
            k - 1
        } else {
            r - 1
        };
        let t = self.order[r2];
        proof {
            assert(self.pre@[r2 + 1] == self.pre@[r2 as int] + self.slen(t as int));
            self.lemma_pre_mono(0, r2 as int);
            assert(self.slen(t as int) > 0);
            self.lemma_slot(t as int, self.slen(t as int) - 1);
            let w = self.oat(t as int, self.slen(t as int) - 1);
            assert(o == 0);
            assert(self.gpos(v as int) == wrap(self.base@ + self.pre@[rk], self.n()));
            assert(self.gpos(w as int) == wrap(self.gpos(v as int) - 1, self.n()));
        }
        self.last_of(t)
    }

    /// Returns the number of nodes in the tour.
    pub fn len(&self) -> (r: usize)
        requires
            self.wf(),
        ensures
            r == self@.len(),
    {
        self.seg_of.len()
    }

    /// Returns true iff the tour holds no node.
    pub fn is_empty(&self) -> (r: bool)
        requires
            self.wf(),
        ensures
            r == (self@.len() == 0),
    {
        self.seg_of.len() == 0
    }

    /// Returns the handle on the node with the given index, or `None` if the
    /// tour holds no such node.
    pub fn get(&self, index: usize) -> (r: Option<TourNode>)
        requires
            self.wf(),
        ensures
            index < self@.len() ==> r == Some(TourNode::at(index)),
            index >= self@.len() ==> r is None,
    {
        if index < self.seg_of.len() {
            Some(TourNode::new(index))
        } else {
            None
        }
    }

    /// Returns the direct successor, in the forward traversal, of the node
    /// with the given index; `None` if there is no such node.
    pub fn successor_at(&self, kin_index: usize) -> (r: Option<TourNode>)
        requires
            self.wf(),
        ensures
            kin_index < self@.len() ==> r == Some(TourNode::at(next_in(self@, kin_index))),
            kin_index >= self@.len() ==> r is None,
    {
        if kin_index >= self.seg_of.len() {
            return None;
        }
        proof {
            lemma_pos_in_tour(self.g@, kin_index);
            if self.rev {
                crate::tour::cycle::lemma_next_reversed(self.g@, kin_index);
            }
        }
        if self.rev {
            Some(TourNode::new(self.prev_g(kin_index)))
        } else {
            Some(TourNode::new(self.next_g(kin_index)))
        }
    }

    /// Returns the direct predecessor, in the forward traversal, of the node
    /// with the given index; `None` if there is no such node.
    pub fn predecessor_at(&self, kin_index: usize) -> (r: Option<TourNode>)
        requires
            self.wf(),
        ensures
            kin_index < self@.len() ==> r == Some(TourNode::at(prev_in(self@, kin_index))),
            kin_index >= self@.len() ==> r is None,
    {
        if kin_index >= self.seg_of.len() {
            return None;
        }
        proof {
            lemma_pos_in_tour(self.g@, kin_index);
            if self.rev {
                crate::tour::cycle::lemma_next_reversed(self.g@, kin_index);
            }
        }
        if self.rev {
            Some(TourNode::new(self.next_g(kin_index)))
        } else {
            Some(TourNode::new(self.prev_g(kin_index)))
        }
    }

    /// The successor of the node a handle stands for.
    pub fn successor(&self, node: &TourNode) -> (r: Option<TourNode>)
        requires
            self.wf(),
        ensures
            node.index_spec() < self@.len() ==> r == Some(TourNode::at(next_in(self@, node.index_spec()))),
            node.index_spec() >= self@.len() ==> r is None,
    {
        self.successor_at(node.index())
    }

    /// The predecessor of the node a handle stands for.
    pub fn predecessor(&self, node: &TourNode) -> (r: Option<TourNode>)
        requires
            self.wf(),
        ensures
            node.index_spec() < self@.len() ==> r == Some(TourNode::at(prev_in(self@, node.index_spec()))),
            node.index_spec() >= self@.len() ==> r is None,
    {
        self.predecessor_at(node.index())
    }

    /// The place of node `v` inside its segment, in physical direction.
    fn oidx_of(&self, v: usize) -> (r: usize)
        requires
            self.wf(),
            v < self.n(),
        ensures
            r == self.oidx(v as int),
            r < self.slen(self.seg_of[v as int] as int),
    {
        let s = self.seg_of[v];
        if self.seg_rev[s] {
            self.items[s].len() - 1 - self.idx_of[v]
        } else {
            self.idx_of[v]
        }
    }

    /// Positions counted from the start of the segment of rank 0 follow the
    /// ranks of the segments, and inside a segment the places in it.
    proof fn lemma_upos_order(&self, a: int, b: int)
        requires
            self.wf(),
            0 <= a < self.n(),
            0 <= b < self.n(),
        ensures
            self.seg_rank[self.seg_of[a] as int] < self.seg_rank[self.seg_of[b] as int] ==> self.upos(a)
                < self.upos(b),
            self.seg_of[a] == self.seg_of[b] ==> self.upos(a) - self.upos(b) == self.oidx(a) - self.oidx(b),
    {
        self.lemma_node(a);
        self.lemma_node(b);
        let ra = self.seg_rank[self.seg_of[a] as int] as int;
        let rb = self.seg_rank[self.seg_of[b] as int] as int;
        if ra < rb {
            self.lemma_pre_mono(ra + 1, rb);
        }
    }

    /// Walking in physical direction from `f`, `m` is reached no later than `t`.
    fn between_g(&self, f: usize, m: usize, t: usize) -> (r: bool)
        requires
            self.wf(),
            f < self.n(),
            m < self.n(),
            t < self.n(),
        ensures
            r == crate::tour::between_spec(pos_of(self.g@, f), pos_of(self.g@, m), pos_of(self.g@, t)),
    {
        let sf = self.seg_of[f];
        let sm = self.seg_of[m];
        let st = self.seg_of[t];
        let of = self.oidx_of(f);
        let om = self.oidx_of(m);
        let ot = self.oidx_of(t);
        proof {
            self.lemma_node(f as int);
            self.lemma_node(m as int);
            self.lemma_node(t as int);
            lemma_between_shift(self.base@, self.upos(f as int), self.upos(m as int), self.upos(t as int), self.n());
            self.lemma_upos_order(f as int, m as int);
            self.lemma_upos_order(m as int, f as int);
            self.lemma_upos_order(f as int, t as int);
            self.lemma_upos_order(t as int, f as int);
            self.lemma_upos_order(m as int, t as int);
            self.lemma_upos_order(t as int, m as int);
            let ghost (rf, rm, rt) = (self.seg_rank[sf as int], self.seg_rank[sm as int], self.seg_rank[st as int]);
            assert(sf != sm ==> rf != rm);
            assert(sf != st ==> rf != rt);
            assert(sm != st ==> rm != rt);
        }
        if sf == sm && sm == st {
            between(of, om, ot)
        } else if sf == sm {
            of <= om
        } else if sm == st {
            om <= ot
        } else if st == sf {
            ot < of
        } else {
            between(self.seg_rank[sf], self.seg_rank[sm], self.seg_rank[st])
        }
    }

    /// Returns true iff the tour, starting at the node `from_index`, arrives
    /// at the node `mid_index` before reaching the node `to_index` in its
    /// forward traversal; false if one of them is not on the tour.
    pub fn between_at(&self, from_index: usize, mid_index: usize, to_index: usize) -> (r: bool)
        requires
            self.wf(),
        ensures
            r == (from_index < self@.len() && mid_index < self@.len() && to_index < self@.len()
                && between_in(self@, from_index, mid_index, to_index)),
    {
        let n = self.seg_of.len();
        if from_index >= n || mid_index >= n || to_index >= n {
            return false;
        }
        proof {
            if self.rev {
                self.lemma_node(from_index as int);
                self.lemma_node(mid_index as int);
                self.lemma_node(to_index as int);
                lemma_pos_reversed(self.g@, from_index);
                lemma_pos_reversed(self.g@, mid_index);
                lemma_pos_reversed(self.g@, to_index);
                lemma_between_mirror(
                    pos_of(self.g@, from_index),
                    pos_of(self.g@, mid_index),
                    pos_of(self.g@, to_index),
                    n as int,
                );
            }
        }
        if self.rev {
            self.between_g(to_index, mid_index, from_index)
        } else {
            self.between_g(from_index, mid_index, to_index)
        }
    }

    /// `between_at` on the nodes that handles stand for.
    pub fn between(&self, from: &TourNode, mid: &TourNode, to: &TourNode) -> (r: bool)
        requires
            self.wf(),
        ensures
            r == (from.index_spec() < self@.len() && mid.index_spec() < self@.len() && to.index_spec()
                < self@.len() && between_in(self@, from.index_spec(), mid.index_spec(), to.index_spec())),
    {
        self.between_at(from.index(), mid.index(), to.index())
    }

    /// Tells how `base` sits next to `targ`: `Predecessor` if `targ` directly
    /// follows `base`, else `Successor` if `targ` directly precedes `base`,
    /// else `Neither`.
    pub fn relation(&self, base: &TourNode, targ: &TourNode) -> (r: NodeRel)
        requires
            self.wf(),
        ensures
            r == relation_spec(self@, *base, *targ),
    {
        match (self.successor(base), self.predecessor(base)) {
            (Some(s), Some(p)) => {
                if s.inner == targ.inner {
                    NodeRel::Predecessor
                } else if p.inner == targ.inner {
                    NodeRel::Successor
                } else {
                    NodeRel::Neither
                }
            },
            _ => NodeRel::Neither,
        }
    }

    /// Reverses the direction of the whole tour.
    pub fn rev(&mut self)
        requires
            old(self).wf(),
        ensures
            final(self).wf(),
            final(self)@ == reversed(old(self)@),
            final(self).flags() == old(self).flags(),
            final(self).cands() == old(self).cands(),
    {
        self.rev = !self.rev;
        proof {
            old(self).lemma_frame(self);
            if !self.rev {
                assert(reversed(reversed(self.g@)) =~= self.g@);
            }
        }
    }

    /// Whether `flip_at(from_a, to_a, from_b, to_b)` reverses the path
    /// `to_a .. from_b` of the tour (otherwise it reverses `to_b .. from_a`).
    /// Read in the direction the segments are stored, a path between the two
    /// arcs that lies inside one segment is the one reversed; otherwise the
    /// segments are first cut at the arcs, and the path covered by the
    /// shorter run of segments is reversed, the path after the first arc on
    /// ties.
    pub closed spec fn flip_turns(&self, from_a: usize, to_a: usize, from_b: usize, to_b: usize) -> bool {
        if self.rev {
            !turn(self.shape(), to_a as int, from_a as int, to_b as int, from_b as int)
        } else {
            turn(self.shape(), from_a as int, to_a as int, from_b as int, to_b as int)
        }
    }

    /// `next` has the segment layout and the direction that
    /// `flip_at(from_a, to_a, from_b, to_b)` leaves on this list: the path
    /// that `flip_turns` names is reversed inside its segment, or the
    /// segments are cut at the arcs and the run of segments that covers it
    /// is reversed, each of its segments taking the mirrored rank. With the
    /// tour, the layout and the direction decide every later flip.
    pub closed spec fn flip_leaves(&self, next: TwoLevelList, from_a: usize, to_a: usize, from_b: usize, to_b: usize) -> bool {
        &&& next.rev == self.rev
        &&& next.shape() == if self.rev {
            flip_layout(self.shape(), to_a as int, from_a as int, to_b as int, from_b as int)
        } else {
            flip_layout(self.shape(), from_a as int, to_a as int, from_b as int, to_b as int)
        }
    }

    /// Replaces the arcs `(from_a, to_a)` and `(from_b, to_b)` by the arcs
    /// `(from_a, from_b)` and `(to_a, to_b)`, reversing the path that
    /// `flip_turns` names. A path between the arcs that lies inside one
    /// segment is reversed there; otherwise the segments are cut at the arcs
    /// and the shorter run of segments is reversed. With an index off the
    /// tour nothing changes.
    pub fn flip_at(&mut self, from_a: usize, to_a: usize, from_b: usize, to_b: usize)
        requires
            old(self).wf(),
            from_a < old(self)@.len() && to_a < old(self)@.len() && from_b < old(self)@.len() && to_b < old(
                self,
            )@.len() ==> two_arcs(old(self)@, from_a, to_a, from_b, to_b),
        ensures
            final(self).wf(),
            from_a < old(self)@.len() && to_a < old(self)@.len() && from_b < old(self)@.len() && to_b < old(
                self,
            )@.len() ==> final(self)@ == if old(self).flip_turns(from_a, to_a, from_b, to_b) {
                rev_path(old(self)@, to_a, from_b)
            } else {
                rev_path(old(self)@, to_b, from_a)
            },
            from_a < old(self)@.len() && to_a < old(self)@.len() && from_b < old(self)@.len() && to_b < old(
                self,
            )@.len() ==> flipped(old(self)@, final(self)@, from_a, to_a, from_b, to_b),
            from_a < old(self)@.len() && to_a < old(self)@.len() && from_b < old(self)@.len() && to_b < old(
                self,
            )@.len() ==> old(self).flip_leaves(*final(self), from_a, to_a, from_b, to_b),
            two_arcs(old(self)@, from_a, to_a, from_b, to_b) ==> flipped(old(self)@, final(self)@, from_a, to_a, from_b, to_b)
                && final(self)@ == flip_result(old(self)@, old(self).flip_turns(from_a, to_a, from_b, to_b), from_a, to_a, from_b, to_b)
                && old(self).flip_leaves(*final(self), from_a, to_a, from_b, to_b),
            !(from_a < old(self)@.len() && to_a < old(self)@.len() && from_b < old(self)@.len() && to_b < old(
                self,
            )@.len()) ==> *final(self) == *old(self),
            final(self).flags() == old(self).flags(),
            final(self).cands() == old(self).cands(),
    {
        let n = self.seg_of.len();
        proof {
            self.lemma_tour();
            if two_arcs(self@, from_a, to_a, from_b, to_b) {
                lemma_next_prev(self@, from_a);
                lemma_next_prev(self@, from_b);
            }
        }
        if !(from_a < n && to_a < n && from_b < n && to_b < n) {
            return ;
        }
        let ghost t = self@;
        let ghost f = self.g@;
        proof {
            assert(is_tour(f));
            lemma_next_prev(t, from_a);
            lemma_next_prev(t, from_b);
            if self.rev {
                assert(reversed(f) == t);
                lemma_next_reversed(f, to_a);
                lemma_next_reversed(f, to_b);
                lemma_next_prev(f, to_a);
                lemma_next_prev(f, to_b);
            }
        }
        if self.rev {
            self.flip_g(to_a, to_b);
        } else {
            self.flip_g(from_a, from_b);
        }
        proof {
            if old(self).rev {
                lemma_reversed_rev_path(f, from_a, to_b);
                lemma_reversed_rev_path(f, from_b, to_a);
            }
            assert(self.flags() == old(self).flags());
            assert(self.cands() =~= old(self).cands());
        }
    }

    /// `flip_at` on the nodes that handles stand for.
    pub fn flip(&mut self, from_a: &TourNode, to_a: &TourNode, from_b: &TourNode, to_b: &TourNode)
        requires
            old(self).wf(),
            two_arcs(old(self)@, from_a.index_spec(), to_a.index_spec(), from_b.index_spec(), to_b.index_spec()),
        ensures
            final(self).wf(),
            final(self)@ == if old(self).flip_turns(
                from_a.index_spec(),
                to_a.index_spec(),
                from_b.index_spec(),
                to_b.index_spec(),
            ) {
                rev_path(old(self)@, to_a.index_spec(), from_b.index_spec())
            } else {
                rev_path(old(self)@, to_b.index_spec(), from_a.index_spec())
            },
            flipped(old(self)@, final(self)@, from_a.index_spec(), to_a.index_spec(), from_b.index_spec(), to_b.index_spec()),
            old(self).flip_leaves(*final(self), from_a.index_spec(), to_a.index_spec(), from_b.index_spec(), to_b.index_spec()),
            final(self).flags() == old(self).flags(),
            final(self).cands() == old(self).cands(),
    {
        proof {
            self.lemma_tour();
            lemma_next_prev(self@, from_a.index_spec());
            lemma_next_prev(self@, from_b.index_spec());
        }
        self.flip_at(from_a.index(), to_a.index(), from_b.index(), to_b.index())
    }

    /// Returns the node order of the tour in its forward direction, starting
    /// at node 0.
    pub fn tour_order(&self) -> (r: TourOrder)
        requires
            self.wf(),
        ensures
            r@ == rotate_from(self@, pos_of(self@, 0)),
    {
        let n = self.seg_of.len();
        let mut result: Vec<usize> = Vec::with_capacity(n);
        if n == 0 {
            proof {
                assert(result@ =~= rotate_from(self@, pos_of(self@, 0)));
            }
            return TourOrder::with_ord(result);
        }
        let ghost t = self@;
        let ghost c = pos_of(t, 0);
        proof {
            self.lemma_tour();
            lemma_pos_in_tour(t, 0);
        }
        let mut cur: usize = 0;
        let mut i: usize = 0;
        while i < n
            invariant
                self.wf(),
                t == self@,
                n == t.len(),
                is_tour(t),
                0 <= c < n,
                i <= n,
                cur < n,
                cur == t[wrap(c + i, n as int)],
                result@ == Seq::new(i as nat, |k: int| t[wrap(c + k, n as int)]),
            decreases n - i,
        {
            result.push(cur);
            proof {
                lemma_pos_of(t, wrap(c + i, n as int));
                crate::tour::cycle::lemma_next_prev(t, cur);
            }
            match self.successor_at(cur) {
                Some(nx) => {
                    cur = nx.index();
                },
                None => {},
            }
            i = i + 1;
            proof {
                assert(result@ =~= Seq::new(i as nat, |k: int| t[wrap(c + k, n as int)]));
            }
        }
        TourOrder::with_ord(result)
    }

    /// Clears the visited flag of every node.
    pub fn reset(&mut self)
        requires
            old(self).wf(),
        ensures
            final(self).wf(),
            final(self)@ == old(self)@,
            final(self).flags() == Seq::new(old(self)@.len(), |i: int| false),
            final(self).cands() == old(self).cands(),
    {
        let len = self.visited.len();
        let mut i: usize = 0;
        proof {
            self.lemma_tour();
        }
        while i < len
            invariant
                old(self).wf(),
                len == self.visited.len(),
                i <= len,
                self.seg_of == old(self).seg_of,
                self.idx_of == old(self).idx_of,
                self.items == old(self).items,
                self.seg_rev == old(self).seg_rev,
                self.seg_rank == old(self).seg_rank,
                self.order == old(self).order,
                self.rev == old(self).rev,
                self.groupsize == old(self).groupsize,
                self.candidates == old(self).candidates,
                self.g == old(self).g,
                self.base == old(self).base,
                self.pre == old(self).pre,
                forall|k: int| 0 <= k < i ==> self.visited[k] == false,
            decreases len - i,
        {
            self.visited.set(i, false);
            i = i + 1;
        }
        proof {
            old(self).lemma_frame(self);
            assert(self.flags() =~= Seq::new(old(self)@.len(), |i: int| false));
        }
    }

    /// Sets the visited flag of a node; nothing happens for an index off the tour.
    pub fn set_visited(&mut self, index: usize, flag: bool)
        requires
            old(self).wf(),
        ensures
            final(self).wf(),
            final(self)@ == old(self)@,
            final(self).flags() == if index < old(self)@.len() {
                old(self).flags().update(index as int, flag)
            } else {
                old(self).flags()
            },
            final(self).cands() == old(self).cands(),
    {
        proof {
            self.lemma_tour();
        }
        if index < self.visited.len() {
            self.visited.set(index, flag);
        }
        proof {
            old(self).lemma_frame(self);
        }
    }

    /// Returns the visited flag of a node; false for an index off the tour.
    pub fn is_visited(&self, index: usize) -> (r: bool)
        requires
            self.wf(),
        ensures
            r == (index < self@.len() && self.flags()[index as int]),
    {
        index < self.visited.len() && self.visited[index]
    }

    /// Replaces the candidate list of a node; nothing happens for an index off the tour.
    pub fn set_candidates(&mut self, index: usize, candidates: Vec<TourNode>)
        requires
            old(self).wf(),
        ensures
            final(self).wf(),
            final(self)@ == old(self)@,
            final(self).flags() == old(self).flags(),
            final(self).cands() == if index < old(self)@.len() {
                old(self).cands().update(index as int, candidates@)
            } else {
                old(self).cands()
            },
    {
        proof {
            self.lemma_tour();
        }
        if index < self.candidates.len() {
            let ghost c = candidates@;
            self.candidates.set(index, candidates);
            proof {
                assert(self.cands() =~= old(self).cands().update(index as int, c));
            }
        }
        proof {
            old(self).lemma_frame(self);
        }
    }

    /// The candidate list of a node.
    pub fn candidates(&self, index: usize) -> (r: &Vec<TourNode>)
        requires
            self.wf(),
            index < self@.len(),
        ensures
            r@ == self.cands()[index as int],
    {
        proof {
            self.lemma_tour();
        }
        &self.candidates[index]
    }

    /// Prefix counts that grow keep growing.
    proof fn lemma_pre_bound(pre: Seq<int>, r: int, kk: int)
        requires
            0 <= r <= kk < pre.len(),
            forall|q: int| 0 <= q < kk ==> #[trigger] pre[q] < pre[q + 1],
        ensures
            pre[r] <= pre[kk],
        decreases kk - r,
    {
        if r < kk {
            Self::lemma_pre_bound(pre, r + 1, kk);
        }
    }

    /// Every position below `pre[kk]` falls into the block of some rank.
    proof fn lemma_find_rank(pre: Seq<int>, kk: int, p: int) -> (r: int)
        requires
            0 <= kk < pre.len(),
            pre[0] == 0,
            forall|r: int| 0 <= r < kk ==> #[trigger] pre[r] < pre[r + 1],
            0 <= p < pre[kk],
        ensures
            0 <= r < kk,
            pre[r] <= p < pre[r + 1],
        decreases kk,
    {
        if p >= pre[kk - 1] {
            kk - 1
        } else {
            Self::lemma_find_rank(pre, kk - 1, p)
        }
    }

    /// Segments cut from an order in runs of `g` nodes: the node at place
    /// `p` of the order stands in segment `p / g` at place `p % g`, and there
    /// are `ceil(n / g)` segments.
    proof fn lemma_groups(pre: Seq<int>, lens: Seq<int>, at: spec_fn(int) -> (int, int), n: int, g: int)
        requires
            g > 0,
            n >= 0,
            pre.len() == lens.len() + 1,
            pre[0] == 0,
            pre[lens.len() as int] == n,
            (n == 0) == (lens.len() == 0),
            forall|q: int| 0 <= q < lens.len() ==> #[trigger] lens[q] == pre[q + 1] - pre[q] && lens[q] > 0,
            forall|q: int| 0 <= q < lens.len() ==> #[trigger] pre[q] == q * g,
            forall|q: int| 0 <= q < lens.len() ==> #[trigger] lens[q] <= g,
            forall|p: int|
                0 <= p < n ==> {
                    let q = (#[trigger] at(p)).0;
                    &&& 0 <= q < lens.len()
                    &&& pre[q] <= p < pre[q + 1]
                    &&& at(p).1 == p - pre[q]
                },
        ensures
            lens.len() == (n + g - 1) / g,
            forall|p: int| 0 <= p < n ==> (#[trigger] at(p)).0 == p / g && at(p).1 == p % g,
    {
        let kk = lens.len() as int;
        if kk > 0 {
            assert(pre[kk - 1] == (kk - 1) * g);
            assert(n <= kk * g) by (nonlinear_arith)
                requires
                    n == pre[kk - 1] + lens[kk - 1],
                    pre[kk - 1] == (kk - 1) * g,
                    lens[kk - 1] <= g,
            ;
            assert((kk - 1) * g + g == kk * g) by (nonlinear_arith);
            lemma_fundamental_div_mod_converse(n + g - 1, g, kk, n + g - 1 - kk * g);
        } else {
            lemma_fundamental_div_mod_converse(n + g - 1, g, 0, n + g - 1);
        }
        assert forall|p: int| 0 <= p < n implies (#[trigger] at(p)).0 == p / g && at(p).1 == p % g by {
            let q = at(p).0;
            assert(pre[q] == q * g);
            assert((q + 1) * g == q * g + g) by (nonlinear_arith);
            if q + 1 < kk {
                assert(pre[q + 1] == (q + 1) * g);
            }
            lemma_fundamental_div_mod_converse(p, g, q, p - q * g);
        }
    }

    /// Cuts the nodes, in the given order, into consecutive segments of
    /// `groupsize` nodes (the last one may be shorter).
    #[verifier::spinoff_prover]
    #[verifier::rlimit(40)]
    fn layout(order: &Vec<usize>, groupsize: usize) -> (r: (Vec<usize>, Vec<usize>, Vec<Vec<usize>>, Ghost<Seq<int>>))
        requires
            groupsize > 0,
            is_perm(order@, order@.len()),
        ensures
            ({
                let (seg_of, idx_of, items, pre) = r;
                let n = order.len() as int;
                let kk = items.len() as int;
                &&& seg_of.len() == n
                &&& idx_of.len() == n
                &&& (n == 0) == (kk == 0)
                &&& pre@.len() == kk + 1
                &&& pre@[0] == 0
                &&& pre@[kk] == n
                &&& forall|q: int| 0 <= q < kk ==> #[trigger] items[q].len() == pre@[q + 1] - pre@[q]
                    && pre@[q] < pre@[q + 1]
                &&& forall|q: int| 0 <= q <= kk ==> 0 <= #[trigger] pre@[q] <= n
                &&& forall|q: int, j: int|
                    0 <= q < kk && 0 <= j < items[q].len() ==> #[trigger] items[q][j] == order[pre@[q] + j]
                &&& forall|p: int|
                    0 <= p < n ==> {
                        let q = #[trigger] seg_of[order[p] as int] as int;
                        &&& 0 <= q < kk
                        &&& pre@[q] <= p < pre@[q + 1]
                        &&& idx_of[order[p] as int] == p - pre@[q]
                    }
                &&& forall|q: int| 0 <= q < kk ==> #[trigger] pre@[q] == q * groupsize
                &&& forall|q: int| 0 <= q < kk ==> #[trigger] items[q].len() <= groupsize
            }),
    {
        let n = order.len();
        proof {
            lemma_perm_is_tour(order@, n as nat);
        }
        let mut seg_of: Vec<usize> = Vec::with_capacity(n);
        let mut idx_of: Vec<usize> = Vec::with_capacity(n);
        let mut z: usize = 0;
        while z < n
            invariant
                z <= n,
                seg_of.len() == z,
                idx_of.len() == z,
            decreases n - z,
        {
            seg_of.push(0);
            idx_of.push(0);
            z = z + 1;
        }
        let mut items: Vec<Vec<usize>> = Vec::new();
        let ghost mut pre: Seq<int> = seq![0int];
        let mut row: Vec<usize> = Vec::new();
        let mut i: usize = 0;
        proof {
            assert(0 * groupsize == 0) by (nonlinear_arith);
            assert(pre[0] == 0 * groupsize);
        }
        while i < n
            invariant
                n == order.len(),
                is_perm(order@, n as nat),
                groupsize > 0,
                i <= n,
                seg_of.len() == n,
                idx_of.len() == n,
                pre.len() == items.len() + 1,
                pre[0] == 0,
                pre[items.len() as int] + row.len() == i,
                row.len() < groupsize,
                forall|q: int|
                    0 <= q <= items.len() ==> #[trigger] pre[q] == q * groupsize || (q == items.len() && i == n),
                forall|q: int| 0 <= q < items.len() ==> #[trigger] items[q].len() <= groupsize,
                i == n ==> row.len() == 0,
                i == 0 ==> items.len() == 0,
                forall|q: int| 0 <= q < items.len() ==> #[trigger] items[q].len() == pre[q + 1] - pre[q]
                    && pre[q] < pre[q + 1],
                forall|q: int| 0 <= q <= items.len() ==> 0 <= #[trigger] pre[q] <= pre[items.len() as int],
                forall|q: int, j: int|
                    0 <= q < items.len() && 0 <= j < items[q].len() ==> #[trigger] items[q][j] == order[pre[q] + j],
                forall|j: int| 0 <= j < row.len() ==> #[trigger] row[j] == order[pre[items.len() as int] + j],
                forall|p: int|
                    0 <= p < i ==> {
                        let q = #[trigger] seg_of[order[p] as int] as int;
                        &&& 0 <= q <= items.len()
                        &&& pre[q] <= p
                        &&& (q < items.len() ==> p < pre[q + 1])
                        &&& idx_of[order[p] as int] == p - pre[q]
                    },
            decreases n - i,
        {
            let v = order[i];
            let ghost kk = items.len() as int;
            seg_of.set(v, items.len());
            idx_of.set(v, row.len());
            row.push(v);
            proof {
                assert forall|p: int| 0 <= p < i + 1 implies {
                    let q = #[trigger] seg_of[order[p] as int] as int;
                    &&& 0 <= q <= kk
                    &&& pre[q] <= p
                    &&& (q < kk ==> p < pre[q + 1])
                    &&& idx_of[order[p] as int] == p - pre[q]
                } by {
                    if p < i {
                        assert(order[p] != order[i as int]);
                    }
                }
            }
            if row.len() == groupsize || i + 1 == n {
                let mut full: Vec<usize> = Vec::new();
                std::mem::swap(&mut full, &mut row);
                items.push(full);
                proof {
                    assert(pre[kk] == kk * groupsize);
                    assert((kk + 1) * groupsize == kk * groupsize + groupsize) by (nonlinear_arith);
                    let ghost pre0 = pre;
                    pre = pre.push((i + 1) as int);
                    assert forall|q: int| 0 <= q <= kk implies #[trigger] pre[q] == pre0[q] by {}
                    assert(full.len() == i + 1 - pre[kk]);
                    if full.len() == groupsize {
                        assert(pre[kk + 1] == (kk + 1) * groupsize);
                    } else {
                        assert(i + 1 == n);
                    }
                    assert(forall|q: int|
                        0 <= q <= kk + 1 ==> #[trigger] pre[q] == q * groupsize || (q == kk + 1 && i + 1 == n));
                    assert forall|p: int| 0 <= p < i + 1 implies {
                        let q = #[trigger] seg_of[order[p] as int] as int;
                        &&& 0 <= q <= items.len()
                        &&& pre[q] <= p
                        &&& (q < items.len() ==> p < pre[q + 1])
                        &&& idx_of[order[p] as int] == p - pre[q]
                    } by {
                        let q = seg_of[order[p] as int] as int;
                        if q < kk {
                            assert(pre[q] == pre.drop_last()[q]);
                        }
                    }
                }
            }
            i = i + 1;
        }
        proof {
            let kk = items.len() as int;
            assert(pre[kk] == n);
            assert((n == 0) == (kk == 0));
            assert(pre.len() == kk + 1);
            assert(forall|q: int| 0 <= q <= kk ==> 0 <= #[trigger] pre[q] <= n);
            assert forall|p: int| 0 <= p < n implies {
                let q = #[trigger] seg_of[order[p] as int] as int;
                &&& 0 <= q < kk
                &&& pre[q] <= p < pre[q + 1]
                &&& idx_of[order[p] as int] == p - pre[q]
            } by {
                let q = seg_of[order[p] as int] as int;
                assert(0 <= q <= kk);
                assert(pre[q] <= p);
                if q == kk {
                    assert(false);
                }
            }
        }
        (seg_of, idx_of, items, Ghost(pre))
    }

    /// Lays the nodes out in the given order: consecutive runs of
    /// `groupsize` nodes form the segments, ranked in order, none reversed.
    fn build(order: &Vec<usize>, groupsize: usize, candidates: Vec<Vec<TourNode>>) -> (r: TwoLevelList)
        requires
            groupsize > 0,
            is_perm(order@, order@.len()),
            candidates.len() == order.len(),
        ensures
            r.wf(),
            r@ == order@,
            r.group_size() == groupsize,
            r.in_groups(order@),
            !r.is_reversed(),
            r.flags() == Seq::new(order@.len(), |i: int| false),
            r.cands() == Seq::new(candidates.len() as nat, |i: int| candidates[i]@),
    {
        let n = order.len();
        let (seg_of, idx_of, items, pre) = Self::layout(order, groupsize);
        let k = items.len();
        let mut visited: Vec<bool> = Vec::with_capacity(n);
        let mut seg_rev: Vec<bool> = Vec::with_capacity(k);
        let mut seg_rank: Vec<usize> = Vec::with_capacity(k);
        let mut ord: Vec<usize> = Vec::with_capacity(k);
        let mut z: usize = 0;
        while z < n
            invariant
                z <= n,
                visited@ == Seq::new(z as nat, |q: int| false),
            decreases n - z,
        {
            visited.push(false);
            z = z + 1;
        }
        let mut y: usize = 0;
        while y < k
            invariant
                y <= k,
                seg_rev@ == Seq::new(y as nat, |q: int| false),
                seg_rank@ == Seq::new(y as nat, |q: int| q as usize),
                ord@ == Seq::new(y as nat, |q: int| q as usize),
            decreases k - y,
        {
            seg_rev.push(false);
            seg_rank.push(y);
            ord.push(y);
            y = y + 1;
        }
        let r = TwoLevelList {
            groupsize,
            seg_of,
            idx_of,
            items,
            seg_rev,
            seg_rank,
            order: ord,
            rev: false,
            visited,
            candidates,
            g: Ghost(order@),
            base: Ghost(0int),
            pre,
        };
        proof {
            lemma_perm_is_tour(order@, n as nat);
            let pre = pre@;
            assert forall|q: int| 0 <= q < k implies #[trigger] pre[q] < pre[q + 1] by {
                assert(r.items[q].len() == pre[q + 1] - pre[q]);
            }
            assert forall|q: int| 0 <= q < k implies #[trigger] r.pre@[q + 1] == r.pre@[q] + r.slen(r.order[q] as int) by {
                assert(r.items[q].len() == pre[q + 1] - pre[q]);
            }
            assert forall|q: int| 0 <= q < k implies #[trigger] r.slen(q) > 0 by {
                assert(r.items[q].len() == pre[q + 1] - pre[q]);
            }
            assert forall|q: int, j: int| 0 <= q < k && 0 <= j < r.slen(q) implies #[trigger] r.items[q][j] < n
                && r.seg_of[r.items[q][j] as int] == q && r.idx_of[r.items[q][j] as int] == j by {
                let p = pre[q] + j;
                assert(r.items[q].len() == pre[q + 1] - pre[q]);
                assert(r.items[q][j] == order[p]);
                let qq = r.seg_of[order[p] as int] as int;
                if qq < q {
                    Self::lemma_pre_bound(pre, qq + 1, q);
                } else if qq > q {
                    Self::lemma_pre_bound(pre, q + 1, qq);
                }
            }
            assert forall|v: int| 0 <= v < n implies #[trigger] r.seg_of[v] < k && r.idx_of[v] < r.slen(
                r.seg_of[v] as int,
            ) && r.items[r.seg_of[v] as int][r.idx_of[v] as int] == v by {
                assert(order@.contains(v as usize));
                let p = choose|p: int| 0 <= p < n && order[p] == v;
                let q = r.seg_of[v] as int;
                assert(r.items[q].len() == pre[q + 1] - pre[q]);
                assert(r.items[q][p - pre[q]] == order[p]);
            }
            assert forall|v: int| 0 <= v < n implies #[trigger] r.g@[r.gpos(v)] == v by {
                assert(order@.contains(v as usize));
                let p = choose|p: int| 0 <= p < n && order[p] == v;
                let q = r.seg_of[v] as int;
                assert(r.items[q].len() == pre[q + 1] - pre[q]);
                assert(r.seg_rank[q] == q);
                assert(r.gpos(v) == p);
            }
            assert(inverse_perms(r.order@, r.seg_rank@));
            assert(r.cands() =~= Seq::new(candidates.len() as nat, |i: int| candidates[i]@));
            let lens = Seq::new(k as nat, |q: int| r.items[q].len() as int);
            let at = |p: int| (r.seg_of[order[p] as int] as int, r.idx_of[order[p] as int] as int);
            assert forall|p: int| 0 <= p < n implies {
                let q = (#[trigger] at(p)).0;
                &&& 0 <= q < lens.len()
                &&& pre[q] <= p < pre[q + 1]
                &&& at(p).1 == p - pre[q]
            } by {
                assert(r.seg_of[order[p] as int] == at(p).0);
            }
            Self::lemma_groups(pre, lens, at, n as int, groupsize as int);
            assert forall|p: int| 0 <= p < n implies #[trigger] r.seg_rank[r.seg_of[order[p] as int] as int] == p
                / (groupsize as int) && r.oidx(order[p] as int) == p % (groupsize as int) by {
                assert(at(p).0 == p / (groupsize as int));
                let q = r.seg_of[order[p] as int] as int;
                assert(0 <= q < k);
                assert(r.seg_rank[q] == q);
                assert(!r.seg_rev[q]);
            }
            assert forall|q: int| 0 <= q < k implies #[trigger] r.slen(q) == if r.seg_rank[q] + 1 < k {
                groupsize as int
            } else {
                n - (k - 1) * groupsize
            } by {
                assert(r.seg_rank[q] == q);
                assert(r.items[q].len() == pre[q + 1] - pre[q]);
                assert(pre[q] == q * groupsize);
                if q + 1 < k {
                    assert(pre[q + 1] == (q + 1) * groupsize);
                    assert((q + 1) * groupsize == q * groupsize + groupsize) by (nonlinear_arith);
                }
            }
        }
        r
    }

    /// Creates the tour `0, 1, .., n_nodes - 1`, cut into segments of
    /// `groupsize` nodes, with no visited node and no candidates.
    pub fn new(n_nodes: usize, groupsize: usize) -> (r: TwoLevelList)
        requires
            groupsize > 0,
        ensures
            r.wf(),
            r@ == Seq::new(n_nodes as nat, |i: int| i as usize),
            r.group_size() == groupsize,
            r.in_groups(Seq::new(n_nodes as nat, |i: int| i as usize)),
            !r.is_reversed(),
            r.flags() == Seq::new(n_nodes as nat, |i: int| false),
            r.cands() == Seq::new(n_nodes as nat, |i: int| Seq::<TourNode>::empty()),
    {
        let ord = TourOrder::with_nat_ord(n_nodes);
        let mut candidates: Vec<Vec<TourNode>> = Vec::with_capacity(n_nodes);
        let mut i: usize = 0;
        while i < n_nodes
            invariant
                i <= n_nodes,
                candidates.len() == i,
                forall|k: int| 0 <= k < i ==> (#[trigger] candidates[k])@ == Seq::<TourNode>::empty(),
            decreases n_nodes - i,
        {
            candidates.push(Vec::new());
            i = i + 1;
        }
        proof {
            assert(is_perm(ord.order@, n_nodes as nat));
        }
        let r = Self::build(&ord.order, groupsize, candidates);
        proof {
            assert(r.cands() =~= Seq::new(n_nodes as nat, |i: int| Seq::<TourNode>::empty()));
        }
        r
    }

    /// Rearranges the tour into the given order. The global direction is
    /// reset first. The order must list every node of the tour exactly once;
    /// otherwise an error is returned and the nodes are left as they were
    /// stored. On success the segments are laid out anew and every visited
    /// flag is cleared.
    pub fn apply(&mut self, tour: &TourOrder) -> (r: Result<(), UpdateTourError>)
        requires
            old(self).wf(),
            tour@.len() == old(self)@.len() ==> forall|i: int| 0 <= i < tour@.len() ==> #[trigger] tour@[i] < tour@.len(),
        ensures
            final(self).wf(),
            final(self).cands() == old(self).cands(),
            tour@.len() != old(self)@.len() ==> r == Err::<(), UpdateTourError>(
                UpdateTourError::TourLenMismatched { expected: old(self)@.len() as usize, received: tour@.len() as usize },
            ),
            tour@.len() == old(self)@.len() && !is_perm(tour@, old(self)@.len()) ==> r == Err::<(), UpdateTourError>(
                UpdateTourError::InvalidTourOrder,
            ),
            r is Err ==> final(self)@ == (if old(self).is_reversed() {
                reversed(old(self)@)
            } else {
                old(self)@
            }) && final(self).flags() == old(self).flags(),
            !final(self).is_reversed(),
            is_perm(tour@, old(self)@.len()) ==> r is Ok && final(self)@ == tour@ && final(self).flags() == Seq::new(
                old(self)@.len(),
                |i: int| false,
            ) && final(self).in_groups(tour@),
            final(self).group_size() == old(self).group_size(),
    {
        proof {
            self.lemma_tour();
        }
        self.rev = false;
        proof {
            old(self).lemma_frame(self);
            assert(reversed(reversed(self.g@)) =~= self.g@);
            self.lemma_tour();
        }
        let order = tour.order();
        let v_len = self.seg_of.len();
        if order.len() != v_len {
            return Err(UpdateTourError::TourLenMismatched { expected: v_len, received: order.len() });
        }
        if !is_permutation(order, v_len) {
            return Err(UpdateTourError::InvalidTourOrder);
        }
        let mut cands: Vec<Vec<TourNode>> = Vec::new();
        std::mem::swap(&mut cands, &mut self.candidates);
        let ghost c = cands;
        *self = Self::build(order, self.groupsize, cands);
        proof {
            assert(self.cands() =~= old(self).cands());
        }
        Ok(())
    }

    /// Exchanges the nodes at physical places `x` and `y` of segment `s`.
    fn swap_slots(&mut self, s: usize, x: usize, y: usize)
        requires
            s < old(self).items.len(),
            x < old(self).items[s as int].len(),
            y < old(self).items[s as int].len(),
            old(self).items[s as int][x as int] < old(self).idx_of.len(),
            old(self).items[s as int][y as int] < old(self).idx_of.len(),
        ensures
            final(self).items@ == old(self).items@.update(s as int, final(self).items[s as int]),
            final(self).items[s as int]@ == old(self).items[s as int]@.update(
                x as int,
                old(self).items[s as int][y as int],
            ).update(y as int, old(self).items[s as int][x as int]),
            final(self).idx_of@ == old(self).idx_of@.update(old(self).items[s as int][x as int] as int, y).update(
                old(self).items[s as int][y as int] as int,
                x,
            ),
            final(self).seg_of == old(self).seg_of,
            final(self).seg_rev == old(self).seg_rev,
            final(self).seg_rank == old(self).seg_rank,
            final(self).order == old(self).order,
            final(self).rev == old(self).rev,
            final(self).groupsize == old(self).groupsize,
            final(self).visited == old(self).visited,
            final(self).candidates == old(self).candidates,
            final(self).g == old(self).g,
            final(self).base == old(self).base,
            final(self).pre == old(self).pre,
    {
        let a = self.items[s][x];
        let b = self.items[s][y];
        self.items[s].set(x, b);
        self.items[s].set(y, a);
        self.idx_of.set(a, y);
        self.idx_of.set(b, x);
    }

    /// Reverses the places `i ..= j` (in physical direction) of segment `s`:
    /// by flipping its direction bit when that is the whole segment, by
    /// exchanging nodes otherwise.
    #[verifier::spinoff_prover]
    #[verifier::rlimit(40)]
    fn reverse_within(&mut self, s: usize, i: usize, j: usize)
        requires
            old(self).wf(),
            s < old(self).k(),
            i <= j < old(self).slen(s as int),
        ensures
            final(self).wf(),
            final(self).g@ == rev_block(
                old(self).g@,
                wrap(old(self).base@ + old(self).pre@[old(self).seg_rank[s as int] as int] + i, old(self).n()),
                j - i + 1,
            ),
            final(self).rev == old(self).rev,
            final(self).visited == old(self).visited,
            final(self).candidates == old(self).candidates,
            final(self).shape() == mirror_layout(old(self).shape(), s as int, i as int, j as int),
    {
        let l = self.items[s].len();
        let ghost o = *old(self);
        let ghost n = o.n();
        let ghost rk = o.seg_rank[s as int] as int;
        let ghost start = wrap(o.base@ + o.pre@[rk] + i, n);
        let ghost blen = j - i + 1;
        let ghost ng = rev_block(o.g@, start, blen);
        proof {
            assert(o.slen(s as int) > 0);
            o.lemma_pre_mono(rk + 1, o.k());
            o.lemma_pre_mono(0, rk);
            assert(o.pre@[rk + 1] == o.pre@[rk] + o.slen(s as int));
            lemma_rev_block_tour(o.g@, start, blen);
        }
        if i == 0 && j + 1 == l {
            self.seg_rev.set(s, !self.seg_rev[s]);
        } else {
            let (a, b) = if self.seg_rev[s] {
                (l - 1 - j, l - 1 - i)
            } else {
                (i, j)
            };
            let h = (b - a + 1) / 2;
            let mut t: usize = 0;
            while t < h
                invariant
                    a <= b < l,
                    n == o.n(),
                    l == o.slen(s as int),
                    s < o.k(),
                    o.wf(),
                    h == (b - a + 1) / 2,
                    t <= h,
                    self.items.len() == o.items.len(),
                    forall|q: int| 0 <= q < o.k() && q != s ==> #[trigger] self.items[q] == o.items[q],
                    self.items[s as int].len() == l,
                    forall|x: int|
                        0 <= x < l ==> #[trigger] self.items[s as int][x] == if (a <= x < a + t) || (b - t < x <= b) {
                            o.items[s as int][a + b - x]
                        } else {
                            o.items[s as int][x]
                        },
                    self.idx_of.len() == n,
                    forall|v: int|
                        0 <= v < n ==> #[trigger] self.idx_of[v] == if o.seg_of[v] == s && ((a <= o.idx_of[v] < a + t)
                            || (b - t < o.idx_of[v] <= b)) {
                            a + b - o.idx_of[v]
                        } else {
                            o.idx_of[v] as int
                        },
                    self.seg_of == o.seg_of,
                    self.seg_rev == o.seg_rev,
                    self.seg_rank == o.seg_rank,
                    self.order == o.order,
                    self.rev == o.rev,
                    self.groupsize == o.groupsize,
                    self.visited == o.visited,
                    self.candidates == o.candidates,
                    self.g == o.g,
                    self.base == o.base,
                    self.pre == o.pre,
                decreases h - t,
            {
                assert(o.slen(s as int) == l);
                proof {
                    assert(a + t < b - t);
                    assert(self.items[s as int][(a + t) as int] == o.items[s as int][(a + t) as int]);
                    assert(self.items[s as int][(b - t) as int] == o.items[s as int][(b - t) as int]);
                    assert(o.items[s as int][(a + t) as int] < n);
                    assert(o.items[s as int][(b - t) as int] < n);
                }
                self.swap_slots(s, a + t, b - t);
                t = t + 1;
                proof {
                    assert forall|v: int| 0 <= v < n implies #[trigger] self.idx_of[v] == if o.seg_of[v] == s && ((a
                        <= o.idx_of[v] < a + t) || (b - t < o.idx_of[v] <= b)) {
                        a + b - o.idx_of[v]
                    } else {
                        o.idx_of[v] as int
                    } by {
                        let x = o.idx_of[v] as int;
                        if o.seg_of[v] == s {
                            assert(o.items[s as int][x] == v);
                        } else {
                            assert(o.items[o.seg_of[v] as int][x] == v);
                        }
                    }
                }
            }
        }
        self.g = Ghost(ng);
        proof {
            if i == 0 && j + 1 == l {
                assert forall|q: int, x: int| 0 <= q < self.k() && 0 <= x < self.slen(q) implies #[trigger] self.items[q][x]
                    < n && self.seg_of[self.items[q][x] as int] == q && self.idx_of[self.items[q][x] as int] == x by {
                    assert(o.items[q][x] < n);
                }
                assert forall|v: int| 0 <= v < n implies #[trigger] self.seg_of[v] < self.k() && self.idx_of[v]
                    < self.slen(self.seg_of[v] as int) && self.items[self.seg_of[v] as int][self.idx_of[v] as int] == v by {
                    assert(o.seg_of[v] < o.k());
                }
                assert forall|r: int| 0 <= r < self.k() implies #[trigger] self.pre@[r + 1] == self.pre@[r] + self.slen(
                    self.order[r] as int) by {
                    assert(o.pre@[r + 1] == o.pre@[r] + o.slen(o.order[r] as int));
                }
                assert forall|q: int| 0 <= q < self.k() implies #[trigger] self.slen(q) > 0 by {
                    assert(o.slen(q) > 0);
                }
                assert forall|v: int| 0 <= v < n implies #[trigger] self.oidx(v) == if o.seg_of[v] == s && i <= o.oidx(v) <= j {
                    i + j - o.oidx(v)
                } else {
                    o.oidx(v)
                } by {
                    o.lemma_node(v);
                }
            } else {
                let (a, b) = if o.seg_rev[s as int] {
                    (l - 1 - j, l - 1 - i)
                } else {
                    (i as int, j as int)
                };
                assert forall|q: int, x: int| 0 <= q < self.k() && 0 <= x < self.slen(q) implies #[trigger] self.items[q][x]
                    < n && self.seg_of[self.items[q][x] as int] == q && self.idx_of[self.items[q][x] as int] == x by {
                    if q == s && a <= x <= b {
                        let y = a + b - x;
                        assert(self.items[q][x] == o.items[q][y]);
                        assert(o.items[q][y] < n);
                        assert(o.idx_of[o.items[q][y] as int] == y);
                    } else {
                        assert(self.items[q][x] == o.items[q][x]);
                        assert(o.items[q][x] < n);
                    }
                }
                assert forall|v: int| 0 <= v < n implies #[trigger] self.seg_of[v] < self.k() && self.idx_of[v]
                    < self.slen(self.seg_of[v] as int) && self.items[self.seg_of[v] as int][self.idx_of[v] as int] == v by {
                    assert(o.seg_of[v] < o.k());
                    let x = o.idx_of[v] as int;
                    assert(o.items[o.seg_of[v] as int][x] == v);
                    if o.seg_of[v] == s && a <= x <= b {
                        assert(self.items[s as int][a + b - x] == o.items[s as int][x]);
                    }
                }
                assert forall|r: int| 0 <= r < self.k() implies #[trigger] self.pre@[r + 1] == self.pre@[r] + self.slen(
                    self.order[r] as int) by {
                    assert(o.pre@[r + 1] == o.pre@[r] + o.slen(o.order[r] as int));
                }
                assert forall|q: int| 0 <= q < self.k() implies #[trigger] self.slen(q) > 0 by {
                    assert(o.slen(q) > 0);
                }
                assert forall|v: int| 0 <= v < n implies #[trigger] self.oidx(v) == if o.seg_of[v] == s && i <= o.oidx(v) <= j {
                    i + j - o.oidx(v)
                } else {
                    o.oidx(v)
                } by {
                    o.lemma_node(v);
                }
            }
            assert forall|q: int| 0 <= q < o.k() implies #[trigger] self.slen(q) == o.slen(q) by {
            }
            self.lemma_reverse_within_wf(o, s as int, i as int, j as int);
            let l0 = o.shape();
            let l1 = self.shape();
            let lm = mirror_layout(l0, s as int, i as int, j as int);
            assert(l1.seg =~= lm.seg);
            assert(l1.pos =~= lm.pos);
            assert(l1.len =~= lm.len);
            assert(l1.srev =~= lm.srev);
            assert(l1.rank =~= lm.rank);
            assert(l1.order =~= lm.order);
        }
    }

    /// Stores segment `s` the other way round and flips its direction bit,
    /// so that every node keeps its place in physical direction.
    #[verifier::spinoff_prover]
    #[verifier::rlimit(40)]
    fn flip_storage(&mut self, s: usize)
        requires
            old(self).wf(),
            s < old(self).k(),
        ensures
            final(self).wf(),
            final(self).g == old(self).g,
            final(self).rev == old(self).rev,
            final(self).visited == old(self).visited,
            final(self).candidates == old(self).candidates,
            final(self).seg_of == old(self).seg_of,
            final(self).seg_rank == old(self).seg_rank,
            final(self).order == old(self).order,
            final(self).k() == old(self).k(),
            final(self).n() == old(self).n(),
            final(self).seg_rev@ == old(self).seg_rev@.update(s as int, !old(self).seg_rev[s as int]),
            forall|q: int| 0 <= q < old(self).k() ==> #[trigger] final(self).slen(q) == old(self).slen(q),
            forall|v: int| 0 <= v < old(self).n() ==> #[trigger] final(self).oidx(v) == old(self).oidx(v),
    {
        let l = self.items[s].len();
        let ghost o = *old(self);
        let ghost n = o.n();
        proof {
            assert(o.slen(s as int) > 0);
        }
        let b = l - 1;
        let h = l / 2;
        let mut t: usize = 0;
        while t < h
            invariant
                b + 1 == l,
                n == o.n(),
                l == o.slen(s as int),
                s < o.k(),
                o.wf(),
                h == l / 2,
                t <= h,
                self.items.len() == o.items.len(),
                forall|q: int| 0 <= q < o.k() && q != s ==> #[trigger] self.items[q] == o.items[q],
                self.items[s as int].len() == l,
                forall|x: int|
                    0 <= x < l ==> #[trigger] self.items[s as int][x] == if (x < t) || (b - t < x) {
                        o.items[s as int][b - x]
                    } else {
                        o.items[s as int][x]
                    },
                self.idx_of.len() == n,
                forall|v: int|
                    0 <= v < n ==> #[trigger] self.idx_of[v] == if o.seg_of[v] == s && ((o.idx_of[v] < t) || (b - t
                        < o.idx_of[v])) {
                        b - o.idx_of[v]
                    } else {
                        o.idx_of[v] as int
                    },
                self.seg_of == o.seg_of,
                self.seg_rev == o.seg_rev,
                self.seg_rank == o.seg_rank,
                self.order == o.order,
                self.rev == o.rev,
                self.groupsize == o.groupsize,
                self.visited == o.visited,
                self.candidates == o.candidates,
                self.g == o.g,
                self.base == o.base,
                self.pre == o.pre,
            decreases h - t,
        {
            proof {
                assert(t < b - t);
                assert(self.items[s as int][t as int] == o.items[s as int][t as int]);
                assert(self.items[s as int][(b - t) as int] == o.items[s as int][(b - t) as int]);
                assert(o.items[s as int][t as int] < n);
                assert(o.items[s as int][(b - t) as int] < n);
            }
            self.swap_slots(s, t, b - t);
            t = t + 1;
            proof {
                assert forall|v: int| 0 <= v < n implies #[trigger] self.idx_of[v] == if o.seg_of[v] == s && ((
                o.idx_of[v] < t) || (b - t < o.idx_of[v])) {
                    b - o.idx_of[v]
                } else {
                    o.idx_of[v] as int
                } by {
                    let x = o.idx_of[v] as int;
                    if o.seg_of[v] == s {
                        assert(o.items[s as int][x] == v);
                    } else {
                        assert(o.items[o.seg_of[v] as int][x] == v);
                    }
                }
            }
        }
        let f = !self.seg_rev[s];
        self.seg_rev.set(s, f);
        proof {
            assert forall|x: int| 0 <= x < l implies #[trigger] self.items[s as int][x] == o.items[s as int][b - x] by {}
            assert forall|v: int| 0 <= v < n implies #[trigger] self.idx_of[v] == if o.seg_of[v] == s {
                b - o.idx_of[v]
            } else {
                o.idx_of[v] as int
            } by {}
            assert forall|q: int, x: int| 0 <= q < self.k() && 0 <= x < self.slen(q) implies #[trigger] self.items[q][x]
                < n && self.seg_of[self.items[q][x] as int] == q && self.idx_of[self.items[q][x] as int] == x by {
                if q == s {
                    let y = b - x;
                    assert(self.items[q][x] == o.items[q][y]);
                    assert(o.items[q][y] < n);
                    assert(o.idx_of[o.items[q][y] as int] == y);
                } else {
                    assert(self.items[q][x] == o.items[q][x]);
                    assert(o.items[q][x] < n);
                }
            }
            assert forall|v: int| 0 <= v < n implies #[trigger] self.seg_of[v] < self.k() && self.idx_of[v] < self.slen(
                self.seg_of[v] as int,
            ) && self.items[self.seg_of[v] as int][self.idx_of[v] as int] == v by {
                assert(o.seg_of[v] < o.k());
                let x = o.idx_of[v] as int;
                assert(o.items[o.seg_of[v] as int][x] == v);
                if o.seg_of[v] == s {
                    assert(self.items[s as int][b - x] == o.items[s as int][x]);
                }
            }
            assert forall|r: int| 0 <= r < self.k() implies #[trigger] self.pre@[r + 1] == self.pre@[r] + self.slen(
                self.order[r] as int,
            ) by {
                assert(o.pre@[r + 1] == o.pre@[r] + o.slen(o.order[r] as int));
            }
            assert forall|q: int| 0 <= q < self.k() implies #[trigger] self.slen(q) > 0 by {
                assert(o.slen(q) > 0);
            }
            assert forall|q: int| 0 <= q < o.k() implies #[trigger] self.slen(q) == o.slen(q) by {}
            assert(self.wf_struct());
            assert forall|v: int| 0 <= v < n implies #[trigger] self.oidx(v) == o.oidx(v) by {
                o.lemma_node(v);
            }
            assert forall|v: int| 0 <= v < n implies #[trigger] self.g@[self.gpos(v)] == v by {
                o.lemma_node(v);
                assert(self.gpos(v) == o.gpos(v));
            }
            assert(self.seg_rev@ =~= o.seg_rev@.update(s as int, !o.seg_rev[s as int]));
        }
    }

    /// After a reversal of the places `i ..= j` of segment `s`, the list is
    /// well formed again with the tour reversed on the matching block.
    proof fn lemma_reverse_within_wf(&self, o: TwoLevelList, s: int, i: int, j: int)
        requires
            o.wf(),
            0 <= s < o.k(),
            0 <= i <= j < o.slen(s),
            self.wf_struct(),
            self.n() == o.n(),
            self.k() == o.k(),
            self.seg_rank == o.seg_rank,
            self.order == o.order,
            self.pre == o.pre,
            self.base == o.base,
            forall|q: int| 0 <= q < o.k() ==> #[trigger] self.slen(q) == o.slen(q),
            forall|v: int| 0 <= v < o.n() ==> #[trigger] self.seg_of[v] == o.seg_of[v],
            forall|v: int| 0 <= v < o.n() ==> #[trigger] self.oidx(v) == if o.seg_of[v] == s && i <= o.oidx(v) <= j {
                i + j - o.oidx(v)
            } else {
                o.oidx(v)
            },
            self.g@ == rev_block(
                o.g@,
                wrap(o.base@ + o.pre@[o.seg_rank[s] as int] + i, o.n()),
                j - i + 1,
            ),
        ensures
            self.wf(),
    {
        let n = o.n();
        let rk = o.seg_rank[s] as int;
        let start = wrap(o.base@ + o.pre@[rk] + i, n);
        let blen = j - i + 1;
        o.lemma_pre_mono(rk + 1, o.k());
        o.lemma_pre_mono(0, rk);
        assert(o.pre@[rk + 1] == o.pre@[rk] + o.slen(s));
        lemma_rev_block_tour(o.g@, start, blen);
        assert forall|v: int| 0 <= v < n implies #[trigger] self.g@[self.gpos(v)] == v by {
            o.lemma_node(v);
            if o.seg_of[v] == s && i <= o.oidx(v) <= j {
                assert(self.gpos(v) == wrap(start + j - o.oidx(v), n));
            } else {
                assert(self.gpos(v) == o.gpos(v));
                let d = wrap(o.gpos(v) - start, n);
                if d < blen {
                    o.lemma_slot(s, i + d);
                    assert(o.gpos(o.oat(s, i + d) as int) == o.gpos(v));
                    assert(o.g@[o.gpos(o.oat(s, i + d) as int)] == o.oat(s, i + d));
                }
            }
        }
    }

    /// Renumbers the segment ranks so that the segment of rank `c` gets
    /// rank 0; the tour is unchanged.
    fn rotate_ranks(&mut self, c: usize)
        requires
            old(self).wf(),
            c < old(self).k(),
        ensures
            final(self).wf(),
            final(self).g == old(self).g,
            final(self).rev == old(self).rev,
            final(self).seg_of == old(self).seg_of,
            final(self).idx_of == old(self).idx_of,
            final(self).items == old(self).items,
            final(self).seg_rev == old(self).seg_rev,
            final(self).visited == old(self).visited,
            final(self).candidates == old(self).candidates,
            forall|s: int| 0 <= s < old(self).k() ==> #[trigger] final(self).seg_rank[s] == wrap(
                old(self).seg_rank[s] - c,
                old(self).k(),
            ),
    {
        let ghost o = *old(self);
        let k = self.order.len();
        let ghost n = o.n();
        let mut new_order: Vec<usize> = Vec::with_capacity(k);
        let mut r: usize = 0;
        while r < k
            invariant
                k == o.k(),
                c < k,
                r <= k,
                new_order@ == Seq::new(r as nat, |x: int| o.order[wrap(x + c, k as int)]),
                self.order == o.order,
                o.order.len() == k,
            decreases k - r,
        {
            let src = if r < k - c {
                r + c
            } else {
                r - (k - c)
            };
            new_order.push(self.order[src]);
            r = r + 1;
            proof {
                assert(new_order@ =~= Seq::new(r as nat, |x: int| o.order[wrap(x + c, k as int)]));
            }
        }
        let mut new_rank: Vec<usize> = Vec::with_capacity(k);
        let mut q: usize = 0;
        while q < k
            invariant
                k == o.k(),
                c < k,
                q <= k,
                self.seg_rank == o.seg_rank,
                o.seg_rank.len() == k,
                forall|x: int| 0 <= x < k ==> #[trigger] o.seg_rank[x] < k,
                new_rank@ == Seq::new(q as nat, |x: int| wrap(o.seg_rank[x] - c, k as int) as usize),
            decreases k - q,
        {
            let r0 = self.seg_rank[q];
            let nr = if r0 >= c {
                r0 - c
            } else {
                r0 + (k - c)
            };
            new_rank.push(nr);
            q = q + 1;
            proof {
                assert(new_rank@ =~= Seq::new(q as nat, |x: int| wrap(o.seg_rank[x] - c, k as int) as usize));
            }
        }
        self.seg_rank = new_rank;
        self.order = new_order;
        let ghost npre = Seq::new(
            (k + 1) as nat,
            |x: int|
                if x + c <= k {
                    o.pre@[x + c] - o.pre@[c as int]
                } else {
                    n - o.pre@[c as int] + o.pre@[x + c - k]
                },
        );
        self.pre = Ghost(npre);
        self.base = Ghost(wrap(o.base@ + o.pre@[c as int], n));
        proof {
            self.lemma_rotate_wf(o, c as int);
        }
    }

    /// The list after renumbering the ranks from `c` on is well formed.
    proof fn lemma_rotate_wf(&self, o: TwoLevelList, c: int)
        requires
            o.wf(),
            0 <= c < o.k(),
            self.g == o.g,
            self.seg_of == o.seg_of,
            self.idx_of == o.idx_of,
            self.items == o.items,
            self.seg_rev == o.seg_rev,
            self.groupsize == o.groupsize,
            self.visited == o.visited,
            self.candidates == o.candidates,
            self.order@ == Seq::new(o.k() as nat, |x: int| o.order[wrap(x + c, o.k())]),
            self.seg_rank.len() == o.k(),
            forall|x: int| 0 <= x < o.k() ==> #[trigger] self.seg_rank[x] == wrap(o.seg_rank[x] - c, o.k()),
            self.pre@ == Seq::new(
                (o.k() + 1) as nat,
                |x: int|
                    if x + c <= o.k() {
                        o.pre@[x + c] - o.pre@[c]
                    } else {
                        o.n() - o.pre@[c] + o.pre@[x + c - o.k()]
                    },
            ),
            self.base@ == wrap(o.base@ + o.pre@[c], o.n()),
        ensures
            self.wf(),
    {
        let k = o.k();
        let n = o.n();
        o.lemma_pre_mono(0, c);
        o.lemma_pre_mono(c, k);
        assert forall|p: int| 0 <= p < k implies #[trigger] self.order[p] < k && self.seg_rank[self.order[p] as int] == p by {
            let x = wrap(p + c, k);
            assert(self.order[p] == o.order[x]);
            assert(o.seg_rank[o.order[x] as int] == x);
        }
        assert forall|v: int| 0 <= v < k implies #[trigger] self.seg_rank[v] < k && self.order[self.seg_rank[v] as int] == v by {
            assert(o.order[o.seg_rank[v] as int] == v);
        }
        assert forall|r: int| 0 <= r < k implies #[trigger] self.pre@[r + 1] == self.pre@[r] + self.slen(self.order[r] as int) by {
            if r + c < k {
                assert(o.pre@[r + c + 1] == o.pre@[r + c] + o.slen(o.order[r + c] as int));
            } else {
                assert(o.pre@[r + c - k + 1] == o.pre@[r + c - k] + o.slen(o.order[r + c - k] as int));
            }
        }
        assert forall|s: int| 0 <= s < k implies #[trigger] self.slen(s) > 0 by {
            assert(o.slen(s) > 0);
        }
        assert forall|s: int, j: int| 0 <= s < k && 0 <= j < self.slen(s) implies #[trigger] self.items[s][j] < n
            && self.seg_of[self.items[s][j] as int] == s && self.idx_of[self.items[s][j] as int] == j by {
            assert(o.items[s][j] < n);
        }
        assert forall|v: int| 0 <= v < n implies #[trigger] self.seg_of[v] < k && self.idx_of[v] < self.slen(
            self.seg_of[v] as int,
        ) && self.items[self.seg_of[v] as int][self.idx_of[v] as int] == v by {
            assert(o.seg_of[v] < k);
        }
        assert(self.wf_struct());
        assert forall|v: int| 0 <= v < n implies #[trigger] self.g@[self.gpos(v)] == v by {
            o.lemma_node(v);
            let s = o.seg_of[v] as int;
            let r = o.seg_rank[s] as int;
            assert(self.oidx(v) == o.oidx(v));
            let nr = self.seg_rank[s] as int;
            assert(nr == wrap(r - c, k));
            if r >= c {
                assert(self.pre@[nr] == o.pre@[r] - o.pre@[c]);
                o.lemma_pre_mono(c, r);
            } else {
                assert(self.pre@[nr] == n - o.pre@[c] + o.pre@[r]);
                o.lemma_pre_mono(r + 1, c);
                assert(o.pre@[r + 1] == o.pre@[r] + o.slen(s));
            }
            assert(self.gpos(v) == o.gpos(v));
        }
    }

    /// Reverses the run of `cnt` consecutive segments that starts at rank
    /// `r1`: their ranks are mirrored and each of them changes direction.
    fn reverse_run(&mut self, r1: usize, cnt: usize)
        requires
            old(self).wf(),
            1 <= cnt,
            r1 + cnt <= old(self).k(),
        ensures
            final(self).wf(),
            final(self).g@ == rev_block(
                old(self).g@,
                wrap(old(self).base@ + old(self).pre@[r1 as int], old(self).n()),
                old(self).pre@[r1 + cnt] - old(self).pre@[r1 as int],
            ),
            final(self).rev == old(self).rev,
            final(self).visited == old(self).visited,
            final(self).candidates == old(self).candidates,
            final(self).seg_of == old(self).seg_of,
            final(self).idx_of == old(self).idx_of,
            final(self).items == old(self).items,
            forall|x: int|
                0 <= x < old(self).k() ==> #[trigger] final(self).seg_rank[x] == if r1 <= old(self).seg_rank[x] < r1 + cnt {
                    2 * r1 + cnt - 1 - old(self).seg_rank[x]
                } else {
                    old(self).seg_rank[x] as int
                },
            forall|x: int|
                0 <= x < old(self).k() ==> #[trigger] final(self).seg_rev[x] == if r1 <= old(self).seg_rank[x] < r1 + cnt {
                    !old(self).seg_rev[x]
                } else {
                    old(self).seg_rev[x]
                },
    {
        let ghost o = *old(self);
        let ghost k = o.k();
        let ghost n = o.n();
        let h = cnt / 2;
        let mut t: usize = 0;
        while t < h
            invariant
                o.wf(),
                k == o.k(),
                n == o.n(),
                1 <= cnt,
                r1 + cnt <= k,
                h == cnt / 2,
                t <= h,
                self.order.len() == k,
                self.seg_rank.len() == k,
                self.seg_rev.len() == k,
                forall|r: int| 0 <= r < k ==> #[trigger] self.order[r] == if Self::in_zone(r, r1 as int, cnt as int, t as int) {
                    o.order[2 * r1 + cnt - 1 - r]
                } else {
                    o.order[r]
                },
                forall|x: int| 0 <= x < k ==> #[trigger] self.seg_rank[x] == if Self::in_zone(o.seg_rank[x] as int, r1 as int, cnt as int, t as int) {
                    2 * r1 + cnt - 1 - o.seg_rank[x]
                } else {
                    o.seg_rank[x] as int
                },
                forall|x: int| 0 <= x < k ==> #[trigger] self.seg_rev[x] == if Self::in_zone(o.seg_rank[x] as int, r1 as int, cnt as int, t as int) {
                    !o.seg_rev[x]
                } else {
                    o.seg_rev[x]
                },
                self.seg_of == o.seg_of,
                self.idx_of == o.idx_of,
                self.items == o.items,
                self.rev == o.rev,
                self.groupsize == o.groupsize,
                self.visited == o.visited,
                self.candidates == o.candidates,
                self.g == o.g,
                self.base == o.base,
                self.pre == o.pre,
            decreases h - t,
        {
            let ra = r1 + t;
            let rb = r1 + cnt - 1 - t;
            let sa = self.order[ra];
            let sb = self.order[rb];
            proof {
                assert(sa == o.order[ra as int]);
                assert(sb == o.order[rb as int]);
                assert(o.seg_rank[sa as int] == ra);
                assert(o.seg_rank[sb as int] == rb);
            }
            self.order.set(ra, sb);
            self.order.set(rb, sa);
            self.seg_rank.set(sa, rb);
            self.seg_rank.set(sb, ra);
            let fa = !self.seg_rev[sa];
            self.seg_rev.set(sa, fa);
            let fb = !self.seg_rev[sb];
            self.seg_rev.set(sb, fb);
            t = t + 1;
            proof {
                assert forall|x: int| 0 <= x < k implies #[trigger] self.seg_rank[x] == if Self::in_zone(o.seg_rank[x] as int, r1 as int, cnt as int, t as int) {
                    2 * r1 + cnt - 1 - o.seg_rank[x]
                } else {
                    o.seg_rank[x] as int
                } by {
                    if x != sa && x != sb {
                        assert(o.order[o.seg_rank[x] as int] == x);
                    }
                }
                assert forall|x: int| 0 <= x < k implies #[trigger] self.seg_rev[x] == if Self::in_zone(o.seg_rank[x] as int, r1 as int, cnt as int, t as int) {
                    !o.seg_rev[x]
                } else {
                    o.seg_rev[x]
                } by {
                    if x != sa && x != sb {
                        assert(o.order[o.seg_rank[x] as int] == x);
                    }
                }
            }
        }
        if cnt % 2 == 1 {
            let m = r1 + h;
            let sm = self.order[m];
            proof {
                assert(sm == o.order[m as int]);
                assert(o.seg_rank[sm as int] == m);
            }
            let fm = !self.seg_rev[sm];
            self.seg_rev.set(sm, fm);
        }
        let ghost npre = Seq::new(
            (k + 1) as nat,
            |x: int|
                if r1 < x < r1 + cnt {
                    o.pre@[r1 as int] + o.pre@[r1 + cnt] - o.pre@[2 * r1 + cnt - x]
                } else {
                    o.pre@[x]
                },
        );
        self.pre = Ghost(npre);
        let ghost ng = rev_block(o.g@, wrap(o.base@ + o.pre@[r1 as int], n), o.pre@[r1 + cnt] - o.pre@[r1 as int]);
        self.g = Ghost(ng);
        proof {
            assert forall|r: int| 0 <= r < k implies #[trigger] self.order[r] == if r1 <= r < r1 + cnt {
                o.order[2 * r1 + cnt - 1 - r]
            } else {
                o.order[r]
            } by {
            }
            assert forall|x: int| 0 <= x < k implies #[trigger] self.seg_rank[x] == if r1 <= o.seg_rank[x] < r1 + cnt {
                2 * r1 + cnt - 1 - o.seg_rank[x]
            } else {
                o.seg_rank[x] as int
            } by {
            }
            assert forall|x: int| 0 <= x < k implies #[trigger] self.seg_rev[x] == if r1 <= o.seg_rank[x] < r1 + cnt {
                !o.seg_rev[x]
            } else {
                o.seg_rev[x]
            } by {
            }
            self.lemma_reverse_run_wf(o, r1 as int, cnt as int);
        }
    }

    /// The ranks already mirrored after `t` exchanges in a run of `cnt`
    /// ranks from `r1`.
    spec fn in_zone(r: int, r1: int, cnt: int, t: int) -> bool {
        (r1 <= r < r1 + t) || (r1 + cnt - t <= r < r1 + cnt)
    }

    /// The list after reversing a run of segments is well formed, with the
    /// tour reversed on the run's block.
    proof fn lemma_reverse_run_wf(&self, o: TwoLevelList, r1: int, cnt: int)
        requires
            o.wf(),
            1 <= cnt,
            0 <= r1,
            r1 + cnt <= o.k(),
            self.order.len() == o.k(),
            self.seg_rank.len() == o.k(),
            self.seg_rev.len() == o.k(),
            forall|r: int| 0 <= r < o.k() ==> #[trigger] self.order[r] == if r1 <= r < r1 + cnt {
                o.order[2 * r1 + cnt - 1 - r]
            } else {
                o.order[r]
            },
            forall|x: int| 0 <= x < o.k() ==> #[trigger] self.seg_rank[x] == if r1 <= o.seg_rank[x] < r1 + cnt {
                2 * r1 + cnt - 1 - o.seg_rank[x]
            } else {
                o.seg_rank[x] as int
            },
            forall|x: int| 0 <= x < o.k() ==> #[trigger] self.seg_rev[x] == if r1 <= o.seg_rank[x] < r1 + cnt {
                !o.seg_rev[x]
            } else {
                o.seg_rev[x]
            },
            self.seg_of == o.seg_of,
            self.idx_of == o.idx_of,
            self.items == o.items,
            self.groupsize == o.groupsize,
            self.visited == o.visited,
            self.candidates == o.candidates,
            self.base == o.base,
            self.pre@ == Seq::new(
                (o.k() + 1) as nat,
                |x: int|
                    if r1 < x < r1 + cnt {
                        o.pre@[r1] + o.pre@[r1 + cnt] - o.pre@[2 * r1 + cnt - x]
                    } else {
                        o.pre@[x]
                    },
            ),
            self.g@ == rev_block(o.g@, wrap(o.base@ + o.pre@[r1], o.n()), o.pre@[r1 + cnt] - o.pre@[r1]),
        ensures
            self.wf(),
    {
        let k = o.k();
        let n = o.n();
        let start = wrap(o.base@ + o.pre@[r1], n);
        let blen = o.pre@[r1 + cnt] - o.pre@[r1];
        o.lemma_pre_mono(0, r1);
        o.lemma_pre_mono(r1, r1 + cnt);
        o.lemma_pre_mono(r1 + cnt, k);
        lemma_rev_block_tour(o.g@, start, blen);
        assert forall|p: int| 0 <= p < k implies #[trigger] self.order[p] < k && self.seg_rank[self.order[p] as int] == p by {
            if r1 <= p < r1 + cnt {
                let q = 2 * r1 + cnt - 1 - p;
                assert(o.seg_rank[o.order[q] as int] == q);
            } else {
                assert(o.seg_rank[o.order[p] as int] == p);
            }
        }
        assert forall|v: int| 0 <= v < k implies #[trigger] self.seg_rank[v] < k && self.order[self.seg_rank[v] as int] == v by {
            assert(o.order[o.seg_rank[v] as int] == v);
        }
        assert forall|r: int| 0 <= r < k implies #[trigger] self.pre@[r + 1] == self.pre@[r] + self.slen(self.order[r] as int) by {
            if r1 <= r < r1 + cnt {
                let q = 2 * r1 + cnt - 1 - r;
                assert(o.pre@[q + 1] == o.pre@[q] + o.slen(o.order[q] as int));
            } else {
                assert(o.pre@[r + 1] == o.pre@[r] + o.slen(o.order[r] as int));
            }
        }
        assert forall|s: int| 0 <= s < k implies #[trigger] self.slen(s) > 0 by {
            assert(o.slen(s) > 0);
        }
        assert forall|s: int, j: int| 0 <= s < k && 0 <= j < self.slen(s) implies #[trigger] self.items[s][j] < n
            && self.seg_of[self.items[s][j] as int] == s && self.idx_of[self.items[s][j] as int] == j by {
            assert(o.items[s][j] < n);
        }
        assert forall|v: int| 0 <= v < n implies #[trigger] self.seg_of[v] < k && self.idx_of[v] < self.slen(
            self.seg_of[v] as int,
        ) && self.items[self.seg_of[v] as int][self.idx_of[v] as int] == v by {
            assert(o.seg_of[v] < k);
        }
        assert(self.wf_struct());
        assert forall|v: int| 0 <= v < n implies #[trigger] self.g@[self.gpos(v)] == v by {
            o.lemma_node(v);
            let s = o.seg_of[v] as int;
            let r = o.seg_rank[s] as int;
            let u = o.upos(v);
            if r1 <= r < r1 + cnt {
                let nr = 2 * r1 + cnt - 1 - r;
                assert(o.pre@[r + 1] == o.pre@[r] + o.slen(s));
                assert(self.pre@[nr] == o.pre@[r1] + o.pre@[r1 + cnt] - o.pre@[r + 1]);
                assert(self.oidx(v) == o.slen(s) - 1 - o.oidx(v));
                assert(self.upos(v) == o.pre@[r1] + o.pre@[r1 + cnt] - 1 - u);
                let d = self.upos(v) - o.pre@[r1];
                o.lemma_pre_mono(r1, r);
                o.lemma_pre_mono(r + 1, r1 + cnt);
                assert(0 <= d < blen);
                assert(wrap(self.gpos(v) - start, n) == d);
                assert(wrap(start + blen - 1 - d, n) == o.gpos(v));
                assert(self.g@[self.gpos(v)] == o.g@[o.gpos(v)]);
            } else {
                assert(self.upos(v) == u);
                if r < r1 {
                    o.lemma_pre_mono(r + 1, r1);
                    assert(o.pre@[r + 1] == o.pre@[r] + o.slen(s));
                } else {
                    o.lemma_pre_mono(r1 + cnt, r);
                }
                assert(self.gpos(v) == o.gpos(v));
                assert(wrap(self.gpos(v) - start, n) >= blen);
                assert(self.g@[self.gpos(v)] == o.g@[o.gpos(v)]);
            }
        }
    }

    /// The nodes of segment `s` in physical direction.
    fn oriented_items(&self, s: usize) -> (r: Vec<usize>)
        requires
            self.wf(),
            s < self.k(),
        ensures
            r@ == Seq::new(self.slen(s as int) as nat, |x: int| self.oat(s as int, x)),
    {
        let l = self.items[s].len();
        let mut r: Vec<usize> = Vec::with_capacity(l);
        let mut x: usize = 0;
        while x < l
            invariant
                self.wf(),
                s < self.k(),
                l == self.slen(s as int),
                x <= l,
                r@ == Seq::new(x as nat, |y: int| self.oat(s as int, y)),
            decreases l - x,
        {
            if self.seg_rev[s] {
                r.push(self.items[s][l - 1 - x]);
            } else {
                r.push(self.items[s][x]);
            }
            x = x + 1;
            proof {
                assert(r@ =~= Seq::new(x as nat, |y: int| self.oat(s as int, y)));
            }
        }
        r
    }

    /// The place of a node of segment `a` or `b` in the two segments read
    /// one after the other in physical direction.
    spec fn pair_place(&self, a: int, v: int) -> int {
        if self.seg_of[v] == a {
            self.oidx(v)
        } else {
            self.slen(a) + self.oidx(v)
        }
    }

    /// Cuts the nodes of the segments of ranks `rho` and `rho + 1`, read one
    /// after the other, anew: the first `cut` of them form the first
    /// segment, the others the second; both are stored forward. The tour
    /// is unchanged.
    #[verifier::spinoff_prover]
    #[verifier::rlimit(40)]
    fn relayout_pair(&mut self, rho: usize, cut: usize)
        requires
            old(self).wf(),
            rho + 1 < old(self).k(),
            0 < cut < old(self).slen(old(self).order[rho as int] as int) + old(self).slen(
                old(self).order[rho + 1] as int,
            ),
        ensures
            final(self).wf(),
            final(self).g == old(self).g,
            final(self).rev == old(self).rev,
            final(self).visited == old(self).visited,
            final(self).candidates == old(self).candidates,
            final(self).order == old(self).order,
            final(self).seg_rank == old(self).seg_rank,
            final(self).k() == old(self).k(),
            final(self).seg_rev@ == old(self).seg_rev@.update(old(self).order[rho as int] as int, false).update(
                old(self).order[rho + 1] as int,
                false,
            ),
            final(self).slen(old(self).order[rho as int] as int) == cut,
            final(self).slen(old(self).order[rho + 1] as int) == old(self).slen(old(self).order[rho as int] as int)
                + old(self).slen(old(self).order[rho + 1] as int) - cut,
            forall|q: int|
                0 <= q < old(self).k() && q != old(self).order[rho as int] && q != old(self).order[rho + 1]
                    ==> #[trigger] final(self).slen(q) == old(self).slen(q),
            forall|v: int|
                0 <= v < old(self).n() ==> {
                    let a = old(self).order[rho as int];
                    let b = old(self).order[rho + 1];
                    let c = old(self).pair_place(a as int, v);
                    if old(self).seg_of[v] == a || old(self).seg_of[v] == b {
                        &&& #[trigger] final(self).seg_of[v] == if c < cut {
                            a
                        } else {
                            b
                        }
                        &&& final(self).oidx(v) == if c < cut {
                            c
                        } else {
                            c - cut
                        }
                    } else {
                        &&& final(self).seg_of[v] == old(self).seg_of[v]
                        &&& final(self).oidx(v) == old(self).oidx(v)
                    }
                },
    {
        let ghost o = *old(self);
        let ghost n = o.n();
        let a = self.order[rho];
        let b = self.order[rho + 1];
        let ca = self.oriented_items(a);
        let cb = self.oriented_items(b);
        let la = ca.len();
        let lb = cb.len();
        let ghost cc = ca@ + cb@;
        proof {
            assert(o.seg_rank[a as int] == rho);
            assert(o.seg_rank[b as int] == rho + 1);
            assert(a != b);
            let r2 = rho + 1;
            assert(o.pre@[r2] == o.pre@[rho as int] + la);
            assert(o.pre@[r2 + 1] == o.pre@[r2] + lb);
            o.lemma_pre_mono(r2 + 1, o.k());
            o.lemma_pre_mono(0, rho as int);
            assert(la + lb <= n);
        }
        let total = la + lb;
        let mut na: Vec<usize> = Vec::with_capacity(cut);
        let mut nb: Vec<usize> = Vec::with_capacity(total - cut);
        let mut x: usize = 0;
        while x < total
            invariant
                total == la + lb,
                cc == ca@ + cb@,
                la == ca.len(),
                lb == cb.len(),
                0 < cut < la + lb,
                x <= la + lb,
                x <= cut ==> na@ == cc.subrange(0, x as int) && nb@.len() == 0,
                x > cut ==> na@ == cc.subrange(0, cut as int) && nb@ == cc.subrange(cut as int, x as int),
            decreases la + lb - x,
        {
            let v = if x < la {
                ca[x]
            } else {
                cb[x - la]
            };
            if x < cut {
                na.push(v);
            } else {
                nb.push(v);
            }
            x = x + 1;
            proof {
                if x <= cut {
                    assert(na@ =~= cc.subrange(0, x as int));
                } else {
                    assert(nb@ =~= cc.subrange(cut as int, x as int));
                }
            }
        }
        proof {
            assert forall|z: int| 0 <= z < la + lb implies #[trigger] cc[z] < n && (o.seg_of[cc[z] as int] == a
                || o.seg_of[cc[z] as int] == b) && o.pair_place(a as int, cc[z] as int) == z by {
                if z < la {
                    o.lemma_slot(a as int, z);
                } else {
                    o.lemma_slot(b as int, z - la);
                }
            }
        }
        self.items.set(a, na);
        self.items.set(b, nb);
        self.seg_rev.set(a, false);
        self.seg_rev.set(b, false);
        let mut y: usize = 0;
        while y < total
            invariant
                total == la + lb,
                o.wf(),
                n == o.n(),
                cc == ca@ + cb@,
                la == o.slen(a as int),
                lb == o.slen(b as int),
                a < o.k(),
                b < o.k(),
                a != b,
                ca@ == Seq::new(o.slen(a as int) as nat, |z: int| o.oat(a as int, z)),
                cb@ == Seq::new(o.slen(b as int) as nat, |z: int| o.oat(b as int, z)),
                0 < cut < la + lb,
                y <= la + lb,
                rho + 1 < o.k(),
                a == o.order[rho as int],
                b == o.order[rho + 1],
                self.seg_rev@ == o.seg_rev@.update(a as int, false).update(b as int, false),
                self.order == o.order,
                self.seg_rank == o.seg_rank,
                self.rev == o.rev,
                self.groupsize == o.groupsize,
                self.visited == o.visited,
                self.candidates == o.candidates,
                self.g == o.g,
                self.base == o.base,
                self.pre == o.pre,
                self.items.len() == o.k(),
                self.items[a as int]@ == cc.subrange(0, cut as int),
                self.items[b as int]@ == cc.subrange(cut as int, (la + lb) as int),
                forall|q: int| 0 <= q < o.k() && q != a && q != b ==> #[trigger] self.items[q] == o.items[q],
                self.seg_of.len() == n,
                self.idx_of.len() == n,
                forall|z: int|
                    0 <= z < la + lb ==> #[trigger] cc[z] < n && (o.seg_of[cc[z] as int] == a || o.seg_of[cc[z] as int]
                        == b) && o.pair_place(a as int, cc[z] as int) == z,
                forall|z: int|
                    0 <= z < y ==> #[trigger] self.seg_of[cc[z] as int] == (if z < cut {
                        a
                    } else {
                        b
                    }) && self.idx_of[cc[z] as int] == (if z < cut {
                        z
                    } else {
                        z - cut
                    }),
                forall|v: int|
                    0 <= v < n && !(o.seg_of[v] == a || o.seg_of[v] == b) ==> #[trigger] self.seg_of[v] == o.seg_of[v]
                        && self.idx_of[v] == o.idx_of[v],
                forall|v: int|
                    0 <= v < n && (o.seg_of[v] == a || o.seg_of[v] == b) && o.pair_place(a as int, v) >= y
                        ==> #[trigger] self.seg_of[v] == o.seg_of[v] && self.idx_of[v] == o.idx_of[v],
            decreases la + lb - y,
        {
            let (v, sg, ix) = if y < cut {
                (self.items[a][y], a, y)
            } else {
                (self.items[b][y - cut], b, y - cut)
            };
            let ghost yy = y as int;
            proof {
                assert(v == cc[yy]);
                assert(o.seg_of[v as int] == a || o.seg_of[v as int] == b);
                assert(o.pair_place(a as int, v as int) == yy);
            }
            let ghost old_seg_of = self.seg_of@;
            let ghost old_idx_of = self.idx_of@;
            self.seg_of.set(v, sg);
            self.idx_of.set(v, ix);
            y = y + 1;
            proof {
                assert forall|z: int| 0 <= z < y implies #[trigger] self.seg_of[cc[z] as int] == (if z < cut {
                    a
                } else {
                    b
                }) && self.idx_of[cc[z] as int] == (if z < cut {
                    z
                } else {
                    z - cut
                }) by {
                    if z < yy {
                        assert(o.pair_place(a as int, cc[z] as int) == z);
                        assert(cc[z] != v);
                        assert(old_seg_of[cc[z] as int] == (if z < cut { a } else { b }));
                        assert(old_idx_of[cc[z] as int] == (if z < cut { z } else { z - cut }));
                    } else {
                        assert(z == yy);
                        assert(cc[z] == v);
                    }
                }
                assert forall|w: int| 0 <= w < n && !(o.seg_of[w] == a || o.seg_of[w] == b) implies #[trigger] self.seg_of[w] == o.seg_of[w]
                        && self.idx_of[w] == o.idx_of[w] by {
                    assert(w != v);
                    assert(old_seg_of[w] == o.seg_of[w]);
                }
                assert forall|w: int| 0 <= w < n && (o.seg_of[w] == a || o.seg_of[w] == b) && o.pair_place(a as int, w) >= y
                        implies #[trigger] self.seg_of[w] == o.seg_of[w] && self.idx_of[w] == o.idx_of[w] by {
                    assert(w != v);
                    assert(old_seg_of[w] == o.seg_of[w]);
                }
            }
        }
        let ghost npre = o.pre@.update(rho + 1, o.pre@[rho as int] + cut);
        self.pre = Ghost(npre);
        proof {
            assert(y == la + lb);
            assert(cc == Seq::new(la as nat, |z: int| o.oat(a as int, z)) + Seq::new(lb as nat, |z: int| o.oat(b as int, z)));
            assert(self.items[a as int]@ == cc.subrange(0, cut as int));
            assert(self.items[b as int]@ == cc.subrange(cut as int, la + lb));
            assert(self.seg_rev@ == o.seg_rev@.update(a as int, false).update(b as int, false));
            assert(forall|z: int|
                    0 <= z < la + lb ==> #[trigger] self.seg_of[cc[z] as int] == (if z < cut {
                        a
                    } else {
                        b
                    }) && self.idx_of[cc[z] as int] == (if z < cut {
                        z
                    } else {
                        z - cut
                    }));
            assert(self.pre@ == o.pre@.update(rho + 1, o.pre@[rho as int] + cut));
            self.lemma_relayout_wf(o, rho as int, cut as int, cc);
        }
    }

    /// The list after cutting two neighbouring segments anew is well formed,
    /// with every node at the same place of the tour.
    #[verifier::spinoff_prover]
    #[verifier::rlimit(40)]
    proof fn lemma_relayout_wf(&self, o: TwoLevelList, rho: int, cut: int, cc: Seq<usize>)
        requires
            o.wf(),
            0 <= rho,
            rho + 1 < o.k(),
            ({
                let a = o.order[rho] as int;
                let b = o.order[rho + 1] as int;
                let la = o.slen(a);
                let lb = o.slen(b);
                &&& cc == Seq::new(la as nat, |z: int| o.oat(a, z)) + Seq::new(lb as nat, |z: int| o.oat(b, z))
                &&& 0 < cut < la + lb
                &&& forall|z: int|
                    0 <= z < la + lb ==> #[trigger] cc[z] < o.n() && (o.seg_of[cc[z] as int] == a || o.seg_of[cc[z] as int]
                        == b) && o.pair_place(a, cc[z] as int) == z
                &&& self.items.len() == o.k()
                &&& self.items[a]@ == cc.subrange(0, cut)
                &&& self.items[b]@ == cc.subrange(cut, la + lb)
                &&& forall|q: int| 0 <= q < o.k() && q != a && q != b ==> #[trigger] self.items[q] == o.items[q]
                &&& self.seg_rev@ == o.seg_rev@.update(a, false).update(b, false)
                &&& self.seg_of.len() == o.n()
                &&& self.idx_of.len() == o.n()
                &&& forall|z: int|
                    0 <= z < la + lb ==> #[trigger] self.seg_of[cc[z] as int] == (if z < cut {
                        a
                    } else {
                        b
                    }) && self.idx_of[cc[z] as int] == (if z < cut {
                        z
                    } else {
                        z - cut
                    })
                &&& forall|v: int|
                    0 <= v < o.n() && !(o.seg_of[v] == a || o.seg_of[v] == b) ==> #[trigger] self.seg_of[v] == o.seg_of[v]
                        && self.idx_of[v] == o.idx_of[v]
            }),
            self.order == o.order,
            self.seg_rank == o.seg_rank,
            self.groupsize == o.groupsize,
            self.visited == o.visited,
            self.candidates == o.candidates,
            self.g == o.g,
            self.base == o.base,
            self.pre@ == o.pre@.update(rho + 1, o.pre@[rho] + cut),
        ensures
            self.wf(),
            forall|v: int|
                0 <= v < o.n() ==> {
                    let a = o.order[rho];
                    let b = o.order[rho + 1];
                    let c = o.pair_place(a as int, v);
                    if o.seg_of[v] == a || o.seg_of[v] == b {
                        &&& #[trigger] self.seg_of[v] == if c < cut {
                            a
                        } else {
                            b
                        }
                        &&& self.oidx(v) == if c < cut {
                            c
                        } else {
                            c - cut
                        }
                    } else {
                        self.seg_of[v] == o.seg_of[v]
                    }
                },
    {
        let n = o.n();
        let k = o.k();
        let a = o.order[rho] as int;
        let b = o.order[rho + 1] as int;
        let la = o.slen(a);
        let lb = o.slen(b);
        assert(o.seg_rank[a] == rho);
        assert(o.seg_rank[b] == rho + 1);
        assert(o.pre@[rho + 1] == o.pre@[rho] + la);
        let r2 = rho + 1;
        assert(o.pre@[r2 + 1] == o.pre@[r2] + lb);
        o.lemma_pre_mono(0, rho);
        // Each node of the two segments sits in `cc` at its pair place.
        assert forall|v: int| 0 <= v < n && (o.seg_of[v] == a || o.seg_of[v] == b) implies #[trigger] cc[o.pair_place(
            a,
            v,
        )] == v by {
            o.lemma_node(v);
        }
        assert forall|r: int| 0 <= r < k implies #[trigger] self.pre@[r + 1] == self.pre@[r] + self.slen(self.order[r] as int) by {
            assert(o.pre@[r + 1] == o.pre@[r] + o.slen(o.order[r] as int));
        }
        assert forall|q: int| 0 <= q < k implies #[trigger] self.slen(q) > 0 by {
            assert(o.slen(q) > 0);
        }
        assert forall|x: int| 0 <= x < self.slen(a) implies #[trigger] self.items[a][x] < n
            && self.seg_of[self.items[a][x] as int] == a && self.idx_of[self.items[a][x] as int] == x by {
            assert(self.items[a][x] == cc[x]);
            assert(cc[x] < n);
            assert(x < cut);
            assert(self.seg_of[cc[x] as int] == a);
            assert(self.idx_of[cc[x] as int] == x);
        }
        assert forall|x: int| 0 <= x < self.slen(b) implies #[trigger] self.items[b][x] < n
            && self.seg_of[self.items[b][x] as int] == b && self.idx_of[self.items[b][x] as int] == x by {
            assert(self.items[b][x] == cc[cut + x]);
            assert(cc[cut + x] < n);
            assert(self.seg_of[cc[cut + x] as int] == b);
        }
        assert forall|v: int| 0 <= v < n && !(o.seg_of[v] == a || o.seg_of[v] == b) implies #[trigger] self.seg_of[v]
            == o.seg_of[v] && self.idx_of[v] == o.idx_of[v] by {
        }
        assert forall|q: int, x: int| 0 <= q < k && 0 <= x < self.slen(q) implies #[trigger] self.items[q][x] < n
            && self.seg_of[self.items[q][x] as int] == q && self.idx_of[self.items[q][x] as int] == x by {
            if q == a {
                assert(self.items[a][x] < n);
            } else if q == b {
                assert(self.items[b][x] < n);
            } else {
                assert(self.items[q] == o.items[q]);
                assert(o.slen(q) == self.slen(q));
                assert(o.items[q][x] < n);
                let w = o.items[q][x] as int;
                assert(o.seg_of[w] == q);
                assert(o.idx_of[w] == x);
                assert(!(o.seg_of[w] == a || o.seg_of[w] == b));
                assert(self.seg_of[w] == o.seg_of[w] && self.idx_of[w] == o.idx_of[w]);
            }
        }
        assert forall|v: int| 0 <= v < n implies #[trigger] self.seg_of[v] < k && self.idx_of[v] < self.slen(
            self.seg_of[v] as int,
        ) && self.items[self.seg_of[v] as int][self.idx_of[v] as int] == v by {
            if o.seg_of[v] == a || o.seg_of[v] == b {
                let z = o.pair_place(a, v);
                o.lemma_node(v);
                assert(cc[z] == v);
                if z < cut {
                    assert(self.items[a][z] == cc[z]);
                } else {
                    assert(self.items[b][z - cut] == cc[z]);
                }
            } else {
                assert(o.seg_of[v] < k);
            }
        }
        assert(self.wf_struct());
        assert forall|v: int| 0 <= v < n implies #[trigger] self.g@[self.gpos(v)] == v by {
            o.lemma_node(v);
            if o.seg_of[v] == a || o.seg_of[v] == b {
                let z = o.pair_place(a, v);
                assert(cc[z] == v);
                assert(self.upos(v) == o.upos(v));
            } else {
                assert(self.upos(v) == o.upos(v));
            }
        }
        assert forall|v: int| 0 <= v < n implies {
            let c = o.pair_place(a, v);
            if o.seg_of[v] == a || o.seg_of[v] == b {
                &&& #[trigger] self.seg_of[v] == if c < cut {
                    a
                } else {
                    b
                }
                &&& self.oidx(v) == if c < cut {
                    c
                } else {
                    c - cut
                }
            } else {
                self.seg_of[v] == o.seg_of[v]
            }
        } by {
            if o.seg_of[v] == a || o.seg_of[v] == b {
                o.lemma_node(v);
                let z = o.pair_place(a, v);
                assert(cc[z] == v);
            }
        }
    }

    /// Where node `v` stands after segment `s` is cut before its place `o`,
    /// as (segment, place): with `to_prev` the nodes before the cut join
    /// the end of the previous segment, otherwise the nodes from the cut on
    /// join the front of the next segment.
    spec fn split_place(&self, s: int, o: int, to_prev: bool, v: int) -> (int, int) {
        let k = self.k();
        let rk = self.seg_rank[s] as int;
        let ps = self.order[wrap(rk - 1, k)] as int;
        let ns = self.order[wrap(rk + 1, k)] as int;
        let sv = self.seg_of[v] as int;
        let ov = self.oidx(v);
        if sv == s {
            if ov < o {
                if to_prev {
                    (ps, self.slen(ps) + ov)
                } else {
                    (s, ov)
                }
            } else {
                if to_prev {
                    (s, ov - o)
                } else {
                    (ns, ov - o)
                }
            }
        } else if !to_prev && sv == ns {
            (ns, self.slen(s) - o + ov)
        } else {
            (sv, ov)
        }
    }

    /// Makes the node at place `o` of segment `s` (in physical direction)
    /// the first node of a segment, by moving the nodes before it to the
    /// previous segment or the nodes from it on to the next segment,
    /// whichever are fewer; on a tie the nodes before it move, or, when the
    /// segment is reversed, the nodes from it on (`cut_to_prev`). The tour,
    /// the ranks and the direction bits are unchanged. Returns whether the
    /// nodes went to the previous segment.
    #[verifier::spinoff_prover]
    #[verifier::rlimit(60)]
    fn split(&mut self, s: usize, o: usize) -> (to_prev: bool)
        requires
            old(self).wf(),
            s < old(self).k(),
            old(self).k() >= 2,
            0 < o < old(self).slen(s as int),
        ensures
            final(self).wf(),
            final(self).g == old(self).g,
            final(self).rev == old(self).rev,
            final(self).visited == old(self).visited,
            final(self).candidates == old(self).candidates,
            final(self).k() == old(self).k(),
            final(self).n() == old(self).n(),
            to_prev == cut_to_prev(old(self).shape(), s as int, o as int),
            final(self).shape() == cut_layout(old(self).shape(), s as int, o as int),
            forall|v: int|
                0 <= v < old(self).n() ==> (#[trigger] final(self).seg_of[v] as int, final(self).oidx(v)) == old(self).split_place(
                    s as int,
                    o as int,
                    to_prev,
                    v,
                ),
    {
        let ghost o0 = *old(self);
        let ghost k0 = o0.k();
        let ghost n = o0.n();
        let ghost rk = o0.seg_rank[s as int] as int;
        let l = self.items[s].len();
        let front = o;
        let back = l - o;
        let to_prev = if self.seg_rev[s] {
            !(back <= front)
        } else {
            front <= back
        };
        let k = self.order.len();
        proof {
            assert(0 <= rk < k0);
            assert(o0.order[rk] == s);
        }
        proof {
            assert(o0.shape().srev[s as int] == o0.seg_rev[s as int]);
            assert(o0.shape().len[s as int] == l);
        }
        let wrapped = if to_prev {
            self.seg_rank[s] == 0
        } else {
            self.seg_rank[s] + 1 == k
        };
        let rev_s = self.seg_rev[s];
        let mut partner: usize = s;
        let mut rev_p: bool = false;
        if to_prev {
            if wrapped {
                self.rotate_ranks(k - 1);
            }
            let ghost o1 = *self;
            proof {
                assert(o1.seg_rank[s as int] >= 1);
                assert(o1.order[o1.seg_rank[s as int] as int] == s);
            }
            let rho = self.seg_rank[s] - 1;
            let pseg = self.order[rho];
            proof {
                assert(neighbours(o0.shape(), s as int).0 == pseg as int);
                assert(o1.slen(pseg as int) > 0);
                assert(o1.order[rho + 1] == s);
                assert(o1.seg_rank[pseg as int] == rho);
                o1.lemma_pre_mono(rho + 2, o1.k());
                o1.lemma_pre_mono(0, rho as int);
                assert(o1.pre@[rho + 1] == o1.pre@[rho as int] + o1.slen(pseg as int));
                let r2 = rho + 1;
                assert(o1.pre@[r2 + 1] == o1.pre@[r2] + o1.slen(s as int));
                assert(o1.slen(pseg as int) + o < o1.n());
                assert(o0.seg_rank[pseg as int] == wrap(rk - 1, k0));
                assert(o0.order[wrap(rk - 1, k0)] == pseg);
                assert(pseg != s);
            }
            partner = pseg;
            rev_p = self.seg_rev[pseg];
            let cut = self.items[pseg].len() + o;
            self.relayout_pair(rho, cut);
            proof {
                assert(o1.seg_rev@ == o0.seg_rev@);
                assert(self.seg_rev@ == o0.seg_rev@.update(pseg as int, false).update(s as int, false));
                assert(self.slen(pseg as int) == o0.slen(pseg as int) + o);
                assert(self.slen(s as int) == o0.slen(s as int) - o);
                assert forall|q: int| 0 <= q < o0.k() && q != pseg && q != s implies #[trigger] self.slen(q) == o0.slen(q) by {
                    assert(o1.slen(q) == o0.slen(q));
                }
                assert forall|v: int| 0 <= v < n implies (#[trigger] self.seg_of[v] as int, self.oidx(v)) == o0.split_place(
                    s as int,
                    o as int,
                    true,
                    v,
                ) by {
                    assert(o1.seg_of[v] == o0.seg_of[v]);
                    assert(o1.oidx(v) == o0.oidx(v));
                }
            }
        } else {
            if wrapped {
                self.rotate_ranks(1);
            }
            let ghost o1 = *self;
            proof {
                assert(o1.seg_rank[s as int] + 1 < k);
                assert(o1.order[o1.seg_rank[s as int] as int] == s);
            }
            let rho = self.seg_rank[s];
            let nseg = self.order[rho + 1];
            proof {
                assert(neighbours(o0.shape(), s as int).1 == nseg as int);
                assert(o1.seg_rank[nseg as int] == rho + 1);
                assert(o1.slen(nseg as int) > 0);
                assert(o0.seg_rank[nseg as int] == wrap(rk + 1, k0));
                assert(o0.order[wrap(rk + 1, k0)] == nseg);
                assert(nseg != s);
            }
            partner = nseg;
            rev_p = self.seg_rev[nseg];
            self.relayout_pair(rho, o);
            proof {
                assert(o1.seg_rev@ == o0.seg_rev@);
                assert(self.seg_rev@ == o0.seg_rev@.update(s as int, false).update(nseg as int, false));
                assert(self.slen(s as int) == o);
                assert(self.slen(nseg as int) == o0.slen(s as int) + o0.slen(nseg as int) - o);
                assert forall|q: int| 0 <= q < o0.k() && q != nseg && q != s implies #[trigger] self.slen(q) == o0.slen(q) by {
                    assert(o1.slen(q) == o0.slen(q));
                }
                assert forall|v: int| 0 <= v < n implies (#[trigger] self.seg_of[v] as int, self.oidx(v)) == o0.split_place(
                    s as int,
                    o as int,
                    false,
                    v,
                ) by {
                    assert(o1.seg_of[v] == o0.seg_of[v]);
                    assert(o1.oidx(v) == o0.oidx(v));
                }
            }
        }
        let ghost o2 = *self;
        proof {
            assert(partner != s);
            assert(partner < k);
            assert(forall|v: int| 0 <= v < n ==> #[trigger] o2.seg_of[v] == self.seg_of[v] && o2.oidx(v) == self.oidx(v));
        }
        if rev_s {
            self.flip_storage(s);
        }
        if rev_p {
            self.flip_storage(partner);
        }
        let ghost o3 = *self;
        proof {
            assert(o3.seg_rev@ =~= o0.seg_rev@);
            assert forall|v: int| 0 <= v < n implies #[trigger] o3.seg_of[v] == o2.seg_of[v] && o3.oidx(v) == o2.oidx(v) by {}
            assert forall|q: int| 0 <= q < k implies #[trigger] o3.slen(q) == o2.slen(q) by {}
        }
        if wrapped {
            if to_prev {
                self.rotate_ranks(1);
            } else {
                self.rotate_ranks(k - 1);
            }
        }
        proof {
            assert forall|x: int| 0 <= x < k implies #[trigger] self.seg_rank[x] == o0.seg_rank[x] by {
                assert(o0.seg_rank[x] < k);
            }
            assert(self.seg_rank@ =~= o0.seg_rank@);
            lemma_order_of_rank(self.order@, self.seg_rank@, o0.order@, o0.seg_rank@);
            assert(self.oidx_agrees(o3));
            assert forall|v: int| 0 <= v < n implies (#[trigger] self.seg_of[v] as int, self.oidx(v)) == o0.split_place(
                s as int,
                o as int,
                to_prev,
                v,
            ) by {
                assert(o3.seg_of[v] == o2.seg_of[v] && o3.oidx(v) == o2.oidx(v));
                assert((o2.seg_of[v] as int, o2.oidx(v)) == o0.split_place(s as int, o as int, to_prev, v));
            }
            let (ps, ns) = neighbours(o0.shape(), s as int);
            if to_prev {
                assert(self.seg_rev@ == o0.seg_rev@);
                assert(o3.slen(ps) == o2.slen(ps));
                assert(o3.slen(s as int) == o2.slen(s as int));
                assert(o2.slen(ps) == o0.slen(ps) + o);
                assert(self.slen(ps) == o0.slen(ps) + o);
                assert(self.slen(s as int) == o0.slen(s as int) - o);
                assert forall|q: int| 0 <= q < o0.k() && q != ps && q != s implies #[trigger] self.slen(q) == o0.slen(q) by {
                    assert(o3.slen(q) == o2.slen(q));
                    assert(o2.slen(q) == o0.slen(q));
                }
            } else {
                assert(self.seg_rev@ == o0.seg_rev@);
                assert(o3.slen(ns) == o2.slen(ns));
                assert(o3.slen(s as int) == o2.slen(s as int));
                assert(self.slen(s as int) == o);
                assert(self.slen(ns) == o0.slen(s as int) + o0.slen(ns) - o);
                assert forall|q: int| 0 <= q < o0.k() && q != ns && q != s implies #[trigger] self.slen(q) == o0.slen(q) by {
                    assert(o3.slen(q) == o2.slen(q));
                    assert(o2.slen(q) == o0.slen(q));
                }
            }
            self.lemma_cut_layout(o0, s as int, o as int, to_prev);
        }
        to_prev
    }

    /// The nodes sit in the same segments, at the same places, as in `o`.
    spec fn oidx_agrees(&self, o: TwoLevelList) -> bool {
        &&& self.seg_of == o.seg_of
        &&& self.idx_of == o.idx_of
        &&& self.items == o.items
        &&& self.seg_rev == o.seg_rev
    }

    /// The list that `split` leaves has the layout that `cut_layout` gives.
    proof fn lemma_cut_layout(&self, o: TwoLevelList, s: int, c: int, to_prev: bool)
        requires
            o.wf(),
            self.wf(),
            0 <= s < o.k(),
            o.k() >= 2,
            0 < c < o.slen(s),
            self.n() == o.n(),
            self.k() == o.k(),
            self.seg_rank@ == o.seg_rank@,
            self.order@ == o.order@,
            to_prev == cut_to_prev(o.shape(), s, c),
            ({
                let (ps, ns) = neighbours(o.shape(), s);
                let (a, b) = if to_prev {
                    (ps, s)
                } else {
                    (s, ns)
                };
                &&& self.seg_rev@ == o.seg_rev@
                &&& self.slen(a) == (if to_prev {
                    o.slen(ps) + c
                } else {
                    c
                })
                &&& self.slen(b) == (if to_prev {
                    o.slen(s) - c
                } else {
                    o.slen(s) + o.slen(ns) - c
                })
                &&& forall|q: int| 0 <= q < o.k() && q != a && q != b ==> #[trigger] self.slen(q) == o.slen(q)
            }),
            forall|v: int|
                0 <= v < o.n() ==> (#[trigger] self.seg_of[v] as int, self.oidx(v)) == o.split_place(s, c, to_prev, v),
        ensures
            self.shape() == cut_layout(o.shape(), s, c),
    {
        let l0 = o.shape();
        let l1 = self.shape();
        let lc = cut_layout(l0, s, c);
        let k = o.k();
        let rk = o.seg_rank[s] as int;
        let (ps, ns) = neighbours(l0, s);
        assert(ps == o.order[wrap(rk - 1, k)] as int);
        assert(ns == o.order[wrap(rk + 1, k)] as int);
        assert(0 <= ps < k && 0 <= ns < k);
        assert forall|v: int| 0 <= v < o.n() implies #[trigger] cut_place(l0, s, c, v) == o.split_place(s, c, to_prev, v) by {
            o.lemma_node(v);
            assert(l0.seg[v] == o.seg_of[v] as int);
            assert(l0.pos[v] == o.oidx(v));
            assert(l0.len[ps] == o.slen(ps));
            assert(l0.len[s] == o.slen(s));
        }
        assert(l1.seg =~= lc.seg) by {
            assert forall|v: int| 0 <= v < o.n() implies l1.seg[v] == lc.seg[v] by {
                assert(self.seg_of[v] as int == o.split_place(s, c, to_prev, v).0);
            }
        }
        assert(l1.pos =~= lc.pos) by {
            assert forall|v: int| 0 <= v < o.n() implies l1.pos[v] == lc.pos[v] by {
                assert(self.oidx(v) == o.split_place(s, c, to_prev, v).1);
            }
        }
        assert(l1.len =~= lc.len) by {
            assert forall|q: int| 0 <= q < k implies l1.len[q] == lc.len[q] by {
                assert(l0.len[q] == o.slen(q));
            }
        }
        assert(l1.srev =~= lc.srev);
        assert(l1.rank =~= lc.rank);
        assert(l1.order =~= lc.order);
    }

    /// The path from node `a` to node `b` lies inside one segment, `a`
    /// coming first in physical direction.
    spec fn inner_path(&self, a: int, b: int) -> bool {
        self.seg_of[a] == self.seg_of[b] && self.oidx(a) <= self.oidx(b)
    }

    /// Where the successor of a node stands: at the next place of its
    /// segment, or at the start of the segment of the next rank.
    proof fn lemma_next_place(&self, p: int)
        requires
            self.wf(),
            0 <= p < self.n(),
        ensures
            ({
                let q = next_in(self.g@, p as usize) as int;
                let s = self.seg_of[p] as int;
                let rk = self.seg_rank[s] as int;
                &&& 0 <= q < self.n()
                &&& self.oidx(p) + 1 < self.slen(s) ==> self.seg_of[q] == s && self.oidx(q) == self.oidx(p) + 1
                &&& self.oidx(p) + 1 == self.slen(s) ==> self.seg_of[q] == self.order[wrap(rk + 1, self.k())]
                    && self.oidx(q) == 0 && self.seg_rank[self.seg_of[q] as int] == wrap(rk + 1, self.k())
                &&& self.k() >= 2 ==> (self.seg_of[q] == s <==> self.oidx(p) + 1 < self.slen(s))
            }),
    {
        self.lemma_node(p);
        let s = self.seg_of[p] as int;
        let o = self.oidx(p);
        let rk = self.seg_rank[s] as int;
        if o + 1 < self.slen(s) {
            self.lemma_next_slot(p);
            self.lemma_slot(s, o + 1);
        } else {
            self.lemma_next_block(p);
            let r2 = wrap(rk + 1, self.k());
            let t = self.order[r2] as int;
            assert(self.slen(t) > 0);
            self.lemma_slot(t, 0);
            assert(self.seg_rank[t] == r2);
        }
    }

    /// When both arcs `(p1, q1)` and `(p2, q2)` run inside one segment, one
    /// of the two paths between them lies inside that segment.
    proof fn lemma_inner_case(&self, p1: int, p2: int)
        requires
            self.wf(),
            0 <= p1 < self.n(),
            0 <= p2 < self.n(),
            p1 != p2,
            self.seg_of[p1] == self.seg_of[p2],
            self.seg_of[next_in(self.g@, p1 as usize) as int] == self.seg_of[p1],
            self.seg_of[next_in(self.g@, p2 as usize) as int] == self.seg_of[p2],
        ensures
            self.inner_path(next_in(self.g@, p2 as usize) as int, p1)
                || self.inner_path(next_in(self.g@, p1 as usize) as int, p2),
    {
        self.lemma_next_place(p1);
        self.lemma_next_place(p2);
        self.lemma_node(p1);
        self.lemma_node(p2);
        let s = self.seg_of[p1] as int;
        assert(self.oidx(p1) != self.oidx(p2));
        if self.k() == 1 {
            assert(self.order[wrap(self.seg_rank[s] + 1, 1)] == 0);
        }
    }

    /// Cutting the segment of an arc `(p, q)` before `q` separates `p` from
    /// `q`; another arc `(p2, q2)` that crossed a segment boundary still
    /// crosses one, unless one of the two paths between the arcs now lies
    /// inside a segment.
    proof fn lemma_split_keeps_boundary(&self, o: TwoLevelList, to_prev: bool, p: int, p2: int)
        requires
            o.wf(),
            self.wf(),
            o.k() >= 2,
            self.g == o.g,
            0 <= p < o.n(),
            0 <= p2 < o.n(),
            p != p2,
            o.seg_of[next_in(o.g@, p as usize) as int] == o.seg_of[p],
            forall|v: int|
                0 <= v < o.n() ==> (#[trigger] self.seg_of[v] as int, self.oidx(v)) == o.split_place(
                    o.seg_of[next_in(o.g@, p as usize) as int] as int,
                    o.oidx(next_in(o.g@, p as usize) as int),
                    to_prev,
                    v,
                ),
        ensures
            ({
                let q = next_in(o.g@, p as usize) as int;
                let q2 = next_in(o.g@, p2 as usize) as int;
                &&& self.seg_of[q] != self.seg_of[p]
                &&& o.seg_of[q2] != o.seg_of[p2] ==> self.seg_of[q2] != self.seg_of[p2] || self.inner_path(q2, p)
                    || self.inner_path(q, p2)
            }),
    {
        let q = next_in(o.g@, p as usize) as int;
        let q2 = next_in(o.g@, p2 as usize) as int;
        o.lemma_next_place(p);
        o.lemma_next_place(p2);
        o.lemma_node(p);
        o.lemma_node(p2);
        o.lemma_node(q);
        o.lemma_node(q2);
        let k = o.k();
        let s = o.seg_of[q] as int;
        let rk = o.seg_rank[s] as int;
        let ps = o.order[wrap(rk - 1, k)] as int;
        let ns = o.order[wrap(rk + 1, k)] as int;
        assert(o.seg_rank[ps] == wrap(rk - 1, k));
        assert(o.seg_rank[ns] == wrap(rk + 1, k));
        assert(ps != s);
        assert(ns != s);
        assert((self.seg_of[p] as int, self.oidx(p)) == o.split_place(s, o.oidx(q), to_prev, p));
        assert((self.seg_of[q] as int, self.oidx(q)) == o.split_place(s, o.oidx(q), to_prev, q));
        assert((self.seg_of[p2] as int, self.oidx(p2)) == o.split_place(s, o.oidx(q), to_prev, p2));
        assert((self.seg_of[q2] as int, self.oidx(q2)) == o.split_place(s, o.oidx(q), to_prev, q2));
        let s2 = o.seg_of[p2] as int;
        let r2 = o.seg_rank[s2] as int;
        if o.seg_of[q2] != o.seg_of[p2] {
            if o.seg_of[q2] == s {
                assert(r2 == wrap(rk - 1, k));
                assert(s2 == ps);
            }
            if o.seg_of[q2] == ns {
                assert(r2 == rk);
                assert(s2 == s);
            }
        }
    }

    /// Reversing places `oidx(a) ..= oidx(b)` of the segment that holds the
    /// path from `a` to `b` reverses that path of the tour.
    proof fn lemma_inner_rev(&self, a: int, b: int)
        requires
            self.wf(),
            0 <= a < self.n(),
            0 <= b < self.n(),
            self.inner_path(a, b),
        ensures
            rev_block(
                self.g@,
                wrap(self.base@ + self.pre@[self.seg_rank[self.seg_of[a] as int] as int] + self.oidx(a), self.n()),
                self.oidx(b) - self.oidx(a) + 1,
            ) == rev_path(self.g@, a as usize, b as usize),
    {
        self.lemma_node(a);
        self.lemma_node(b);
        self.lemma_upos_order(a, b);
    }

    /// Reverses the path from node `a` to node `b` in physical direction,
    /// where `a` starts a segment, `b` ends one and the path runs over
    /// `cnt` whole segments, by reversing that run of segments: each
    /// segment of the run takes the rank of its mirror image in the run and
    /// changes direction; the segments keep their nodes.
    fn reverse_segs(&mut self, a: usize, b: usize, cnt: usize)
        requires
            old(self).wf(),
            a < old(self).n(),
            b < old(self).n(),
            1 <= cnt <= old(self).k(),
            old(self).oidx(a as int) == 0,
            old(self).oidx(b as int) + 1 == old(self).slen(old(self).seg_of[b as int] as int),
            old(self).seg_rank[old(self).seg_of[b as int] as int] == wrap(
                old(self).seg_rank[old(self).seg_of[a as int] as int] + cnt - 1,
                old(self).k(),
            ),
        ensures
            final(self).wf(),
            final(self).g@ == rev_path(old(self).g@, a, b),
            final(self).rev == old(self).rev,
            final(self).visited == old(self).visited,
            final(self).candidates == old(self).candidates,
            final(self).seg_of == old(self).seg_of,
            final(self).idx_of == old(self).idx_of,
            final(self).items == old(self).items,
            final(self).shape() == run_layout(
                old(self).shape(),
                old(self).seg_rank[old(self).seg_of[a as int] as int] as int,
                cnt as int,
            ),
            forall|x: int|
                0 <= x < old(self).k() ==> {
                    let ra = old(self).seg_rank[old(self).seg_of[a as int] as int] as int;
                    let d = wrap(old(self).seg_rank[x] - ra, old(self).k());
                    &&& #[trigger] final(self).seg_rank[x] == if d < cnt {
                        wrap(ra + cnt - 1 - d, old(self).k())
                    } else {
                        old(self).seg_rank[x] as int
                    }
                    &&& final(self).seg_rev[x] == if d < cnt {
                        !old(self).seg_rev[x]
                    } else {
                        old(self).seg_rev[x]
                    }
                },
    {
        let ghost o0 = *old(self);
        let k = self.order.len();
        let ra = self.seg_rank[self.seg_of[a]];
        proof {
            o0.lemma_node(a as int);
            o0.lemma_node(b as int);
        }
        let rotated = cnt > k - ra;
        if rotated {
            self.rotate_ranks(ra);
        }
        let ghost o1 = *self;
        let r1 = self.seg_rank[self.seg_of[a]];
        proof {
            o1.lemma_node(a as int);
            o1.lemma_node(b as int);
            assert(o1.oidx(a as int) == 0);
            assert(o1.oidx(b as int) == o0.oidx(b as int));
            assert(o1.slen(o1.seg_of[b as int] as int) == o0.slen(o0.seg_of[b as int] as int));
            assert(r1 + cnt <= k);
            let rb = o1.seg_rank[o1.seg_of[b as int] as int] as int;
            assert(rb == r1 + cnt - 1);
            assert(o1.order[rb] == o1.seg_of[b as int]);
            assert(o1.pre@[rb + 1] == o1.pre@[rb] + o1.slen(o1.order[rb] as int));
            o1.lemma_pre_mono(r1 as int, rb);
            assert(o1.upos(b as int) == o1.pre@[r1 + cnt] - 1);
            assert(o1.upos(a as int) == o1.pre@[r1 as int]);
        }
        self.reverse_run(r1, cnt);
        let ghost o2 = *self;
        if rotated {
            self.rotate_ranks(k - ra);
        }
        proof {
            assert forall|x: int| 0 <= x < k implies {
                let d = wrap(o0.seg_rank[x] - ra, k as int);
                &&& #[trigger] self.seg_rank[x] == if d < cnt {
                    wrap(ra + cnt - 1 - d, k as int)
                } else {
                    o0.seg_rank[x] as int
                }
                &&& self.seg_rev[x] == if d < cnt {
                    !o0.seg_rev[x]
                } else {
                    o0.seg_rev[x]
                }
            } by {
                assert(o0.seg_rank[x] < k);
                assert(o1.seg_rank[x] < k);
                assert(o2.seg_rank[x] < k);
            }
            self.lemma_run_layout(o0, ra as int, cnt as int);
        }
    }

    /// The list that `reverse_segs` leaves has the layout that `run_layout`
    /// gives.
    proof fn lemma_run_layout(&self, o: TwoLevelList, ra: int, cnt: int)
        requires
            o.wf(),
            self.wf(),
            0 <= ra < o.k(),
            1 <= cnt <= o.k(),
            self.k() == o.k(),
            self.seg_of == o.seg_of,
            self.idx_of == o.idx_of,
            self.items == o.items,
            forall|x: int|
                0 <= x < o.k() ==> {
                    let d = wrap(o.seg_rank[x] - ra, o.k());
                    &&& #[trigger] self.seg_rank[x] == if d < cnt {
                        wrap(ra + cnt - 1 - d, o.k())
                    } else {
                        o.seg_rank[x] as int
                    }
                    &&& self.seg_rev[x] == if d < cnt {
                        !o.seg_rev[x]
                    } else {
                        o.seg_rev[x]
                    }
                },
        ensures
            self.shape() == run_layout(o.shape(), ra, cnt),
    {
        let k = o.k();
        let l0 = o.shape();
        let l1 = self.shape();
        let lr = run_layout(l0, ra, cnt);
        assert(l1.seg =~= lr.seg);
        assert(l1.len =~= lr.len);
        assert forall|x: int| 0 <= x < k implies #[trigger] l0.rank[x] == o.seg_rank[x] as int && (in_run(l0, ra, cnt, x)
            == (wrap(o.seg_rank[x] - ra, k) < cnt)) by {
            assert(o.seg_rank[x] < k);
        }
        assert(l1.pos =~= lr.pos) by {
            assert forall|v: int| 0 <= v < o.n() implies l1.pos[v] == lr.pos[v] by {
                o.lemma_node(v);
                let sv = o.seg_of[v] as int;
                assert(l0.rank[sv] == o.seg_rank[sv] as int);
                let rr = self.seg_rank[sv];
                assert(self.slen(sv) == o.slen(sv));
            }
        }
        assert(l1.srev =~= lr.srev) by {
            assert forall|x: int| 0 <= x < k implies l1.srev[x] == lr.srev[x] by {
                let rr = self.seg_rank[x];
                assert(l0.rank[x] == o.seg_rank[x] as int);
            }
        }
        assert(l1.rank =~= lr.rank);
        assert(l1.order =~= lr.order) by {
            assert forall|r: int| 0 <= r < k implies l1.order[r] == lr.order[r] by {
                let d = wrap(r - ra, k);
                if d < cnt {
                    let m = mirror_rank(k, ra, cnt, r);
                    let sm = o.order[m] as int;
                    assert(o.seg_rank[sm] == m);
                    assert(wrap(m - ra, k) == cnt - 1 - d);
                    assert(self.seg_rank[sm] == r);
                    assert(self.order[r] == sm);
                } else {
                    let sr = o.order[r] as int;
                    assert(o.seg_rank[sr] == r);
                    assert(self.seg_rank[sr] == r);
                    assert(self.order[r] == sr);
                }
            }
        }
    }

    /// How far a 2-opt move on the arcs after `p1` and `p2` is from being
    /// done by reversing a path inside one segment, or by reversing runs of
    /// whole segments: the arcs that still run inside a segment.
    spec fn flip_measure(&self, p1: int, p2: int) -> nat {
        let q1 = next_in(self.g@, p1 as usize) as int;
        let q2 = next_in(self.g@, p2 as usize) as int;
        if self.inner_path(q2, p1) || self.inner_path(q1, p2) {
            0
        } else {
            (1 + (if self.seg_of[p1] == self.seg_of[q1] {
                1int
            } else {
                0int
            }) + (if self.seg_of[p2] == self.seg_of[q2] {
                1int
            } else {
                0int
            })) as nat
        }
    }

    /// Cuts segments at the heads of the arcs `(p1, q1)` and `(p2, q2)`,
    /// where `q1` and `q2` follow `p1` and `p2` and neither path between the
    /// arcs lies inside a segment: first at `q1` if `p1` and `q1` share a
    /// segment, then at `q2` if `p2` and `q2` shared one before. Returns
    /// whether nothing was to be cut; then both arcs cross segment
    /// boundaries.
    fn split_arcs(&mut self, p1: usize, p2: usize, q1: usize, q2: usize) -> (done: bool)
        requires
            old(self).wf(),
            p1 < old(self).n(),
            p2 < old(self).n(),
            p1 != p2,
            q1 == next_in(old(self).g@, p1),
            q2 == next_in(old(self).g@, p2),
            !old(self).inner_path(q2 as int, p1 as int),
            !old(self).inner_path(q1 as int, p2 as int),
        ensures
            final(self).wf(),
            final(self).g == old(self).g,
            final(self).rev == old(self).rev,
            final(self).visited == old(self).visited,
            final(self).candidates == old(self).candidates,
            final(self).n() == old(self).n(),
            done ==> final(self).k() >= 2 && final(self).seg_of[p1 as int] != final(self).seg_of[q1 as int]
                && final(self).seg_of[p2 as int] != final(self).seg_of[q2 as int],
            !done ==> final(self).flip_measure(p1 as int, p2 as int) < old(self).flip_measure(p1 as int, p2 as int),
            done == (old(self).seg_of[p1 as int] != old(self).seg_of[q1 as int] && old(self).seg_of[p2 as int]
                != old(self).seg_of[q2 as int]),
            final(self).shape() == cut_arcs(old(self).shape(), p1 as int, q1 as int, p2 as int, q2 as int),
            final(self).inner_path(q2 as int, p1 as int) || final(self).inner_path(q1 as int, p2 as int) || (
            final(self).seg_of[p1 as int] != final(self).seg_of[q1 as int] && final(self).seg_of[p2 as int]
                != final(self).seg_of[q2 as int]),
    {
        let ghost o0 = *old(self);
        proof {
            o0.lemma_next_place(p1 as int);
            o0.lemma_next_place(p2 as int);
        }
        let sp1 = self.seg_of[p1];
        let sq1 = self.seg_of[q1];
        let sp2 = self.seg_of[p2];
        let sq2 = self.seg_of[q2];
        proof {
            if o0.k() < 2 || (sp1 == sq1 && sp2 == sq2 && sp1 == sp2) {
                o0.lemma_inner_case(p1 as int, p2 as int);
            }
            assert(o0.k() >= 2);
        }
        let split_b = sp2 == sq2;
        proof {
            o0.lemma_shape_at(p1 as int);
            o0.lemma_shape_at(q1 as int);
            o0.lemma_shape_at(p2 as int);
            o0.lemma_shape_at(q2 as int);
        }
        if sp1 == sq1 {
            let oq1 = self.oidx_of(q1);
            let to_prev = self.split(sq1, oq1);
            proof {
                self.lemma_split_keeps_boundary(o0, to_prev, p1 as int, p2 as int);
                if split_b {
                    assert(sp2 != sq1);
                    assert((self.seg_of[p2 as int] as int, self.oidx(p2 as int)) == o0.split_place(
                        sq1 as int,
                        oq1 as int,
                        to_prev,
                        p2 as int,
                    ));
                    assert((self.seg_of[q2 as int] as int, self.oidx(q2 as int)) == o0.split_place(
                        sq1 as int,
                        oq1 as int,
                        to_prev,
                        q2 as int,
                    ));
                    assert(self.seg_of[p2 as int] == self.seg_of[q2 as int]);
                }
            }
        }
        if split_b {
            let ghost o2 = *self;
            proof {
                o2.lemma_next_place(p2 as int);
            }
            let s2 = self.seg_of[q2];
            let ob = self.oidx_of(q2);
            proof {
                o2.lemma_shape_at(q2 as int);
            }
            let to_prev = self.split(s2, ob);
            proof {
                self.lemma_split_keeps_boundary(o2, to_prev, p2 as int, p1 as int);
            }
        }
        sp1 != sq1 && !split_b
    }

    /// The 2-opt move on the physical tour: the arcs `(p1, q1)` and
    /// `(p2, q2)`, where `q1` and `q2` follow `p1` and `p2`, give way to
    /// `(p1, p2)` and `(q1, q2)` by reversing the path `q1 .. p2` or the
    /// path `q2 .. p1`. A path inside one segment is reversed in place;
    /// otherwise the segments are cut at the arcs and the shorter run of
    /// whole segments is reversed.
    #[verifier::spinoff_prover]
    #[verifier::rlimit(60)]
    fn flip_g(&mut self, p1: usize, p2: usize)
        requires
            old(self).wf(),
            p1 < old(self).n(),
            p2 < old(self).n(),
            p1 != p2,
        ensures
            final(self).wf(),
            final(self).g@ == if turn(
                old(self).shape(),
                p1 as int,
                next_in(old(self).g@, p1) as int,
                p2 as int,
                next_in(old(self).g@, p2) as int,
            ) {
                rev_path(old(self).g@, next_in(old(self).g@, p1), p2)
            } else {
                rev_path(old(self).g@, next_in(old(self).g@, p2), p1)
            },
            final(self).shape() == flip_layout(
                old(self).shape(),
                p1 as int,
                next_in(old(self).g@, p1) as int,
                p2 as int,
                next_in(old(self).g@, p2) as int,
            ),
            final(self).rev == old(self).rev,
            final(self).visited == old(self).visited,
            final(self).candidates == old(self).candidates,
    {
        let ghost o0 = *old(self);
        let q1 = self.next_g(p1);
        let q2 = self.next_g(p2);
        loop
            invariant
                o0 == *old(self),
                self.wf(),
                self.g == o0.g,
                self.rev == o0.rev,
                self.visited == o0.visited,
                self.candidates == o0.candidates,
                self.n() == o0.n(),
                p1 < self.n(),
                p2 < self.n(),
                p1 != p2,
                q1 == next_in(self.g@, p1),
                q2 == next_in(self.g@, p2),
                turn(self.shape(), p1 as int, q1 as int, p2 as int, q2 as int) == turn(
                    o0.shape(),
                    p1 as int,
                    q1 as int,
                    p2 as int,
                    q2 as int,
                ),
                flip_layout(self.shape(), p1 as int, q1 as int, p2 as int, q2 as int) == flip_layout(
                    o0.shape(),
                    p1 as int,
                    q1 as int,
                    p2 as int,
                    q2 as int,
                ),
            ensures
                self.wf(),
                self.g == o0.g,
                self.rev == o0.rev,
                self.visited == o0.visited,
                self.candidates == o0.candidates,
                self.n() == o0.n(),
                self.k() >= 2,
                self.seg_of[p1 as int] != self.seg_of[q1 as int],
                self.seg_of[p2 as int] != self.seg_of[q2 as int],
                !self.inner_path(q2 as int, p1 as int),
                !self.inner_path(q1 as int, p2 as int),
                turn(self.shape(), p1 as int, q1 as int, p2 as int, q2 as int) == turn(
                    o0.shape(),
                    p1 as int,
                    q1 as int,
                    p2 as int,
                    q2 as int,
                ),
                flip_layout(self.shape(), p1 as int, q1 as int, p2 as int, q2 as int) == flip_layout(
                    o0.shape(),
                    p1 as int,
                    q1 as int,
                    p2 as int,
                    q2 as int,
                ),
            decreases self.flip_measure(p1 as int, p2 as int),
        {
            proof {
                self.lemma_next_place(p1 as int);
                self.lemma_next_place(p2 as int);
                self.lemma_shape_at(p1 as int);
                self.lemma_shape_at(q1 as int);
                self.lemma_shape_at(p2 as int);
                self.lemma_shape_at(q2 as int);
            }
            let ghost cur = *self;
            let sp1 = self.seg_of[p1];
            let sq1 = self.seg_of[q1];
            let sp2 = self.seg_of[p2];
            let sq2 = self.seg_of[q2];
            let op1 = self.oidx_of(p1);
            let oq1 = self.oidx_of(q1);
            let op2 = self.oidx_of(p2);
            let oq2 = self.oidx_of(q2);
            if sp1 == sq2 && oq2 <= op1 {
                proof {
                    self.lemma_inner_rev(q2 as int, p1 as int);
                }
                self.reverse_within(sp1, oq2, op1);
                return ;
            }
            if sp2 == sq1 && oq1 <= op2 {
                proof {
                    self.lemma_inner_rev(q1 as int, p2 as int);
                }
                self.reverse_within(sp2, oq1, op2);
                return ;
            }
            let done = self.split_arcs(p1, p2, q1, q2);
            proof {
                self.lemma_shape_at(p1 as int);
                self.lemma_shape_at(q1 as int);
                self.lemma_shape_at(p2 as int);
                self.lemma_shape_at(q2 as int);
                assert(!inside(cur.shape(), q2 as int, p1 as int));
                assert(!inside(cur.shape(), q1 as int, p2 as int));
                if done {
                    assert(self.shape() == cur.shape());
                } else {
                    let l = self.shape();
                    assert(turn(cur.shape(), p1 as int, q1 as int, p2 as int, q2 as int) == settle(l, p1 as int, q1 as int, p2 as int, q2 as int));
                    assert(flip_layout(cur.shape(), p1 as int, q1 as int, p2 as int, q2 as int) == settle_layout(l, p1 as int, q1 as int, p2 as int, q2 as int));
                    if !inside(l, q2 as int, p1 as int) && !inside(l, q1 as int, p2 as int) {
                        assert(cut_arcs(l, p1 as int, q1 as int, p2 as int, q2 as int) == l);
                    }
                }
            }
            if done {
                break;
            }
        }
        let k = self.order.len();
        let rq1 = self.seg_rank[self.seg_of[q1]];
        let rp2 = self.seg_rank[self.seg_of[p2]];
        let rq2 = self.seg_rank[self.seg_of[q2]];
        let rp1 = self.seg_rank[self.seg_of[p1]];
        proof {
            self.lemma_next_place(p1 as int);
            self.lemma_next_place(p2 as int);
            self.lemma_node(p1 as int);
            self.lemma_node(p2 as int);
            self.lemma_node(q1 as int);
            self.lemma_node(q2 as int);
        }
        let diff1 = if rq1 <= rp2 {
            rp2 - rq1
        } else {
            k - rq1 + rp2
        };
        let diff2 = if rq2 <= rp1 {
            rp1 - rq2
        } else {
            k - rq2 + rp1
        };
        proof {
            let l = self.shape();
            self.lemma_shape_at(p1 as int);
            self.lemma_shape_at(q1 as int);
            self.lemma_shape_at(p2 as int);
            self.lemma_shape_at(q2 as int);
            assert(cut_arcs(l, p1 as int, q1 as int, p2 as int, q2 as int) == l);
            assert(rank_gap(l, q1 as int, p2 as int) == diff1);
            assert(rank_gap(l, q2 as int, p1 as int) == diff2);
            assert(turn(l, p1 as int, q1 as int, p2 as int, q2 as int) == (diff1 <= diff2));
            assert(l.rank[l.seg[q1 as int]] == rq1);
            assert(l.rank[l.seg[q2 as int]] == rq2);
        }
        if diff1 <= diff2 {
            self.reverse_segs(q1, p2, diff1 + 1);
        } else {
            self.reverse_segs(q2, p1, diff2 + 1);
        }
    }
}

} // verus!
