//! k-opt moves built from 2-opt moves (`flip`).
//!
//! The moves take arcs `(f1, t1), (f2, t2), ..` of the tour, where each `tx`
//! directly follows `fx` and the arcs are met in this order on a forward
//! walk. The arcs cut the tour into blocks: `t1 .. f2`, `t2 .. f3`, and so
//! on, up to the block that ends at `f1`. A move reconnects the blocks, some
//! of them reversed; the tour that results is stated as a cycle of blocks,
//! walked in one direction or the other.
use vstd::prelude::*;

use crate::tour::cycle::{
    cyc_eq, is_tour, lemma_arcs_fwd, lemma_arcs_rev, lemma_cyc_index, lemma_flip2, lemma_rev_block_tour, prev_in, lemma_cyc_rot, lemma_next_prev, lemma_orient_rel, lemma_path, lemma_pos_in_tour, lemma_pos_of,
    lemma_reversed_add, lemma_reversed_twice, lemma_same_len, lemma_same_rot, lemma_step2, lemma_step3, lemma_step_arcs, next_in,
    offset, path, path_len, pos_of, rev_path, reversed, rotate_from, same_cycle, two_arcs, flipped, flip_result, wrap,
};
use crate::tour::{NodeRel, Tour, TourNode};

verus! {

/// The arcs `(f1, t1), (f2, t2), (f3, t3)` of the tour `s`, met in this
/// order on a forward walk from `f1`.
pub open spec fn arcs3(s: Seq<usize>, f1: usize, t1: usize, f2: usize, t2: usize, f3: usize, t3: usize) -> bool {
    &&& f1 < s.len() && f2 < s.len() && f3 < s.len()
    &&& t1 == next_in(s, f1) && t2 == next_in(s, f2) && t3 == next_in(s, f3)
    &&& 0 < offset(s, f1, f2) < offset(s, f1, f3)
}

/// The arcs `(f1, t1), .., (f4, t4)` of the tour `s`, met in this order on
/// a forward walk from `f1`.
pub open spec fn arcs4(
    s: Seq<usize>,
    f1: usize,
    t1: usize,
    f2: usize,
    t2: usize,
    f3: usize,
    t3: usize,
    f4: usize,
    t4: usize,
) -> bool {
    &&& arcs3(s, f1, t1, f2, t2, f3, t3)
    &&& f4 < s.len() && t4 == next_in(s, f4)
    &&& offset(s, f1, f3) < offset(s, f1, f4)
}

/// A walk from `a` to `b` that passes `m` before `b` is the walk from `a`
/// to `m` followed by the walk from the successor of `m` to `b`.
#[verifier::spinoff_prover]
#[verifier::rlimit(30)]
pub proof fn lemma_path_split(s: Seq<usize>, a: usize, m: usize, b: usize)
    requires
        is_tour(s),
        a < s.len(),
        m < s.len(),
        b < s.len(),
        offset(s, a, m) < offset(s, a, b),
    ensures
        path(s, a, b) == path(s, a, m) + path(s, next_in(s, m), b),
        offset(s, next_in(s, m), b) == offset(s, a, b) - offset(s, a, m) - 1,
{
    let n = s.len() as int;
    lemma_pos_in_tour(s, a);
    lemma_pos_in_tour(s, m);
    lemma_pos_in_tour(s, b);
    lemma_next_prev(s, m);
    let m2 = next_in(s, m);
    lemma_path(s, a, b);
    lemma_path(s, a, m);
    lemma_path(s, m2, b);
    let lm = path_len(s, a, m);
    assert(lm == offset(s, a, m) + 1);
    assert(path_len(s, m2, b) == offset(s, a, b) - offset(s, a, m));
    assert forall|i: int| 0 <= i < path_len(s, a, b) implies path(s, a, b)[i] == (path(s, a, m) + path(s, m2, b))[i] by {
        if i >= lm {
            assert(path(s, m2, b)[i - lm] == s[wrap(pos_of(s, m2) + i - lm, n)]);
        }
    }
    assert(path(s, a, b) =~= path(s, a, m) + path(s, m2, b));
}

/// The whole tour, read from `t`, is the walk from `t` to its predecessor.
proof fn lemma_path_whole(s: Seq<usize>, f: usize)
    requires
        is_tour(s),
        f < s.len(),
    ensures
        rotate_from(s, pos_of(s, next_in(s, f))) == path(s, next_in(s, f), f),
        offset(s, next_in(s, f), f) == s.len() - 1,
{
    lemma_pos_in_tour(s, f);
    lemma_next_prev(s, f);
    let t = next_in(s, f);
    lemma_path(s, t, f);
    assert(path(s, t, f) =~= rotate_from(s, pos_of(s, t)));
}

/// Two arcs cut the tour into two blocks: the walk from `tb` to `fa` and
/// the walk from `ta` to `fb`.
#[verifier::spinoff_prover]
#[verifier::rlimit(30)]
pub proof fn lemma_blocks2(s: Seq<usize>, fa: usize, ta: usize, fb: usize, tb: usize)
    requires
        is_tour(s),
        two_arcs(s, fa, ta, fb, tb),
    ensures
        ({
            let x = path(s, tb, fa);
            let y = path(s, ta, fb);
            &&& rotate_from(s, pos_of(s, tb)) == x + y
            &&& cyc_eq(s, x + y)
            &&& x.len() > 0 && y.len() > 0
            &&& x[0] == tb && x.last() == fa && y[0] == ta && y.last() == fb
        }),
{
    let n = s.len() as int;
    lemma_pos_in_tour(s, fa);
    lemma_pos_in_tour(s, fb);
    lemma_next_prev(s, fa);
    lemma_next_prev(s, fb);
    lemma_path_whole(s, fb);
    assert(offset(s, tb, fa) < offset(s, tb, fb));
    lemma_path_split(s, tb, fa, fb);
    lemma_path(s, tb, fa);
    lemma_path(s, ta, fb);
    lemma_pos_in_tour(s, tb);
    assert(0 <= pos_of(s, tb) < n && rotate_from(s, pos_of(s, tb)) == path(s, tb, fa) + path(s, ta, fb));
}

/// A 2-opt move: after it, the tour holds the arcs `(fa, fb)` and
/// `(ta, tb)` in place of `(fa, ta)` and `(fb, tb)`, walked one way or the
/// other.
#[verifier::spinoff_prover]
#[verifier::rlimit(30)]
pub proof fn law_flip_arcs(s: Seq<usize>, s1: Seq<usize>, fa: usize, ta: usize, fb: usize, tb: usize)
    requires
        is_tour(s),
        two_arcs(s, fa, ta, fb, tb),
        flipped(s, s1, fa, ta, fb, tb),
    ensures
        is_tour(s1),
        next_in(s1, fa) == fb && next_in(s1, ta) == tb || next_in(s1, fb) == fa && next_in(s1, tb) == ta,
{
    lemma_blocks2(s, fa, ta, fb, tb);
    let x = path(s, tb, fa);
    let y = path(s, ta, fb);
    let n = s.len() as int;
    lemma_flip2(s, s1, x, y);
    lemma_next_prev(s, fa);
    lemma_next_prev(s, fb);
    lemma_path(s, ta, fb);
    lemma_path(s, tb, fa);
    lemma_pos_in_tour(s, ta);
    lemma_pos_in_tour(s, tb);
    if s1 == rev_path(s, ta, fb) {
        lemma_rev_block_tour(s, pos_of(s, ta), path_len(s, ta, fb));
    } else {
        lemma_rev_block_tour(s, pos_of(s, tb), path_len(s, tb, fa));
    }
    let w = x + reversed(y);
    lemma_same_len(s1, w);
    let lx = x.len() as int;
    assert(w[lx - 1] == fa);
    assert(w[lx] == fb);
    assert(w[n - 1] == ta);
    assert(w[0] == tb);
    if cyc_eq(s1, w) {
        lemma_arcs_fwd(s1, w, lx - 1);
        lemma_arcs_fwd(s1, w, n - 1);
    } else {
        lemma_arcs_rev(s1, w, lx - 1);
        lemma_arcs_rev(s1, w, n - 1);
    }
}

/// Two tours that walk one cycle have, node by node, the same successors,
/// or the successors of the one are the predecessors of the other.
#[verifier::spinoff_prover]
#[verifier::rlimit(30)]
proof fn lemma_same_next(s: Seq<usize>, s2: Seq<usize>, w: Seq<usize>)
    requires
        is_tour(s),
        is_tour(s2),
        cyc_eq(s, w),
        same_cycle(s2, w),
    ensures
        (forall|v: usize| v < s.len() ==> next_in(s2, v) == next_in(s, v)) || (forall|v: usize|
            v < s.len() ==> next_in(s2, v) == prev_in(s, v)),
{
    let n = s.len() as int;
    let c = choose|c: int| 0 <= c < s.len() && #[trigger] rotate_from(s, c) == w;
    lemma_cyc_index(s, c);
    lemma_same_len(s2, w);
    if cyc_eq(s2, w) {
        let c2 = choose|c2: int| 0 <= c2 < s2.len() && #[trigger] rotate_from(s2, c2) == w;
        lemma_cyc_index(s2, c2);
        assert forall|v: usize| v < s.len() implies next_in(s2, v) == next_in(s, v) by {
            lemma_pos_in_tour(s, v);
            let i = wrap(pos_of(s, v) - c, n);
            assert(w[i] == s[wrap(c + i, n)]);
        }
    } else {
        let r = reversed(w);
        let c2 = choose|c2: int| 0 <= c2 < s2.len() && #[trigger] rotate_from(s2, c2) == r;
        lemma_cyc_index(s2, c2);
        assert forall|v: usize| v < s.len() implies next_in(s2, v) == prev_in(s, v) by {
            lemma_pos_in_tour(s, v);
            let i = wrap(pos_of(s, v) - c, n);
            assert(w[i] == s[wrap(c + i, n)]);
            assert(r[n - 1 - i] == w[i]);
            assert(r[wrap(n - 1 - i + 1, n)] == w[wrap(i - 1, n)]);
        }
    }
}

/// A 2-opt move on the arcs that a 2-opt move made, `(fa, fb)` and
/// `(ta, tb)`, gives the tour back, walked one way or the other: each node
/// has its old successor, or each has its old predecessor as successor.
#[verifier::spinoff_prover]
#[verifier::rlimit(30)]
pub proof fn law_flip_undo(
    s: Seq<usize>,
    s1: Seq<usize>,
    s2: Seq<usize>,
    fa: usize,
    ta: usize,
    fb: usize,
    tb: usize,
)
    requires
        is_tour(s),
        two_arcs(s, fa, ta, fb, tb),
        flipped(s, s1, fa, ta, fb, tb),
        two_arcs(s1, fa, fb, ta, tb),
        flipped(s1, s2, fa, fb, ta, tb),
    ensures
        (forall|v: usize| v < s.len() ==> next_in(s2, v) == next_in(s, v)) || (forall|v: usize|
            v < s.len() ==> next_in(s2, v) == prev_in(s, v)),
{
    law_flip_arcs(s, s1, fa, ta, fb, tb);
    law_flip_arcs(s1, s2, fa, fb, ta, tb);
    lemma_blocks2(s, fa, ta, fb, tb);
    let x = path(s, tb, fa);
    let y = path(s, ta, fb);
    let n = s.len() as int;
    lemma_flip2(s, s1, x, y);
    let w = x + reversed(y);
    lemma_same_len(s1, w);
    if n == 2 {
        assert forall|v: usize| v < s.len() implies next_in(s2, v) == next_in(s, v) by {
            lemma_pos_in_tour(s, v);
            lemma_pos_in_tour(s2, v);
            lemma_next_prev(s, v);
            lemma_next_prev(s2, v);
            lemma_pos_of(s, pos_of(s, next_in(s, v)));
            lemma_pos_of(s2, pos_of(s2, next_in(s2, v)));
        }
    } else {
        let lx = x.len() as int;
        assert(w[lx - 1] == fa);
        assert(w[lx] == fb);
        lemma_orient_rel(s1, w, lx - 1);
        if !cyc_eq(s1, w) {
            lemma_arcs_rev(s1, w, lx - 1);
            lemma_next_prev(s1, fb);
        }
        assert(cyc_eq(s1, w));
        assert(reversed(y)[0] == fb);
        assert(reversed(y).last() == ta);
        lemma_flip2(s1, s2, x, reversed(y));
        lemma_reversed_twice(y);
        lemma_same_next(s, s2, x + y);
    }
}

/// Three arcs in order cut the tour into three blocks.
#[verifier::spinoff_prover]
#[verifier::rlimit(30)]
pub proof fn lemma_blocks3(s: Seq<usize>, f1: usize, t1: usize, f2: usize, t2: usize, f3: usize, t3: usize)
    requires
        is_tour(s),
        arcs3(s, f1, t1, f2, t2, f3, t3),
    ensures
        s.len() >= 3,
        f1 != f2 && f2 != f3 && f1 != f3,
        ({
            let a = path(s, t1, f2);
            let b = path(s, t2, f3);
            let c = path(s, t3, f1);
            &&& rotate_from(s, pos_of(s, t1)) == a + b + c
            &&& cyc_eq(s, a + b + c)
            &&& a.len() > 0 && b.len() > 0 && c.len() > 0
            &&& a[0] == t1 && a.last() == f2 && b[0] == t2 && b.last() == f3 && c[0] == t3 && c.last() == f1
        }),
{
    let n = s.len() as int;
    lemma_pos_in_tour(s, f1);
    lemma_pos_in_tour(s, f2);
    lemma_pos_in_tour(s, f3);
    lemma_next_prev(s, f1);
    lemma_next_prev(s, f2);
    lemma_next_prev(s, f3);
    assert(f1 != f2 && f2 != f3 && f1 != f3);
    lemma_path_whole(s, f1);
    assert(offset(s, t1, f2) == offset(s, f1, f2) - 1);
    lemma_path_split(s, t1, f2, f1);
    assert(offset(s, t2, f3) == offset(s, f1, f3) - offset(s, f1, f2) - 1);
    lemma_path_split(s, t2, f3, f1);
    lemma_path(s, t1, f2);
    lemma_path(s, t2, f3);
    lemma_path(s, t3, f1);
    let a = path(s, t1, f2);
    let b = path(s, t2, f3);
    let c = path(s, t3, f1);
    assert(a + (b + c) =~= a + b + c);
    assert(0 <= pos_of(s, t1) < n && rotate_from(s, pos_of(s, t1)) == a + b + c);
}

/// Four arcs in order cut the tour into four blocks; the third block of
/// the first three arcs is the last two of them.
#[verifier::spinoff_prover]
#[verifier::rlimit(30)]
pub proof fn lemma_blocks4(
    s: Seq<usize>,
    f1: usize,
    t1: usize,
    f2: usize,
    t2: usize,
    f3: usize,
    t3: usize,
    f4: usize,
    t4: usize,
)
    requires
        is_tour(s),
        arcs4(s, f1, t1, f2, t2, f3, t3, f4, t4),
    ensures
        s.len() >= 4,
        arcs3(s, f1, t1, f2, t2, f3, t3),
        f4 != f1 && f4 != f2 && f4 != f3,
        ({
            let a = path(s, t1, f2);
            let b = path(s, t2, f3);
            let c = path(s, t3, f4);
            let d = path(s, t4, f1);
            &&& path(s, t3, f1) == c + d
            &&& cyc_eq(s, a + b + c + d)
            &&& a.len() > 0 && b.len() > 0 && c.len() > 0 && d.len() > 0
            &&& a[0] == t1 && a.last() == f2 && b[0] == t2 && b.last() == f3
            &&& c[0] == t3 && c.last() == f4 && d[0] == t4 && d.last() == f1
        }),
{
    let n = s.len() as int;
    lemma_blocks3(s, f1, t1, f2, t2, f3, t3);
    lemma_pos_in_tour(s, f1);
    lemma_pos_in_tour(s, f3);
    lemma_pos_in_tour(s, f4);
    lemma_next_prev(s, f1);
    lemma_next_prev(s, f3);
    lemma_next_prev(s, f4);
    assert(f4 != f1 && f4 != f3);
    assert(offset(s, t3, f4) == offset(s, f1, f4) - offset(s, f1, f3) - 1);
    assert(offset(s, t3, f1) == n - 1 - offset(s, f1, f3));
    lemma_path_split(s, t3, f4, f1);
    lemma_path(s, t3, f4);
    lemma_path(s, t4, f1);
    let a = path(s, t1, f2);
    let b = path(s, t2, f3);
    let c = path(s, t3, f4);
    let d = path(s, t4, f1);
    assert(a + b + (c + d) =~= a + b + c + d);
}

/// Moves of three arcs. With the blocks `a = t1 .. f2`, `b = t2 .. f3` and
/// `c = t3 .. f1`, each move gives the cycle `opt3_cycle(a, b, c, move)`.
#[derive(Clone, Copy, Debug, Eq, PartialEq, Structural)]
pub enum Opt3Move {
    /// Equivalent to a single 2-opt move.
    ///
    /// Results in [f1-f2]-[t1-t2]-[f3-t3].
    Move1,
    /// Equivalent to a single 2-opt move.
    ///
    /// Results in [f1-t1]-[f2-f3]-[t2-t3].
    Move2,
    /// Equivalent to a single 2-opt move.
    ///
    /// Results in [f1-f3]-[t2-f2]-[t1-t3].
    Move3,
    /// Equivalent to two 2-opt moves. The first move is [`Opt3Move::Move1`].
    ///
    /// Results in [f1-f3]-[t2-t1]-[f2-t3].
    Move4,
    /// Equivalent to two 2-opt moves. The first move is [`Opt3Move::Move2`].
    ///
    /// Results in [f1-f2]-[t1-f3]-[t2-t3].
    Move5,
    /// Equivalent to two 2-opt moves. The first move is [`Opt3Move::Move3`].
    ///
    /// Results in [f1-t2]-[f3-f2]-[t1-t3].
    Move6,
    /// Equivalent to three 2-opt moves.
    ///
    /// Results in [f1-t2]-[f3-t1]-[f2-t3].
    Move7,
}

/// The cycle of blocks that a 3-opt move makes of the blocks `a b c`.
pub open spec fn opt3_cycle(a: Seq<usize>, b: Seq<usize>, c: Seq<usize>, m: Opt3Move) -> Seq<usize> {
    match m {
        Opt3Move::Move1 => c + reversed(a) + b,
        Opt3Move::Move2 => c + a + reversed(b),
        Opt3Move::Move3 => c + reversed(b) + reversed(a),
        Opt3Move::Move4 => c + reversed(b) + a,
        Opt3Move::Move5 => c + reversed(a) + reversed(b),
        Opt3Move::Move6 => c + b + reversed(a),
        Opt3Move::Move7 => c + b + a,
    }
}

/// The index a handle stands for.
pub open spec fn ix(h: &TourNode) -> usize {
    h.index_spec()
}

/// `n` is the tour `s` after one flip of the arcs `(fa, ta)` and `(fb, tb)`:
/// its nodes, and what its later flips are decided by.
pub open spec fn flip_step<T: Tour>(s: T, n: T, fa: usize, ta: usize, fb: usize, tb: usize) -> bool {
    &&& n.tour_view() == flip_result(s.tour_view(), s.flip_turns(fa, ta, fb, tb), fa, ta, fb, tb)
    &&& s.flip_leaves(n, fa, ta, fb, tb)
}

/// `n` is the tour `s` after a flip of the arcs `(a, b)` and `(c, d)` when
/// `rb` follows `ra` on `s`, and of the arcs `(b, a)` and `(d, c)` when it
/// does not.
pub open spec fn oriented_step<T: Tour>(
    s: T,
    n: T,
    ra: usize,
    rb: usize,
    a: usize,
    b: usize,
    c: usize,
    d: usize,
) -> bool {
    if next_in(s.tour_view(), ra) == rb {
        flip_step(s, n, a, b, c, d)
    } else {
        flip_step(s, n, b, a, d, c)
    }
}

/// Executes the 2-opt move: the arcs `(f1, t1)` and `(f2, t2)` give way to
/// `(f1, f2)` and `(t1, t2)`. The tour is left as one flip of the two arcs
/// leaves it, the path reversed being the one that the tour's `flip_turns`
/// names.
pub fn move_2_opt<T: Tour>(tour: &mut T, f1: &TourNode, t1: &TourNode, f2: &TourNode, t2: &TourNode)
    requires
        old(tour).valid(),
        two_arcs(old(tour).tour_view(), ix(f1), ix(t1), ix(f2), ix(t2)),
    ensures
        final(tour).valid(),
        flipped(old(tour).tour_view(), final(tour).tour_view(), ix(f1), ix(t1), ix(f2), ix(t2)),
        flip_step(*old(tour), *final(tour), ix(f1), ix(t1), ix(f2), ix(t2)),
        final(tour).visited_flags() == old(tour).visited_flags(),
        final(tour).cand_lists() == old(tour).cand_lists(),
{
    tour.flip(f1, t1, f2, t2);
}

/// A handle that stands for a node.
pub open spec fn is_handle(h: &TourNode) -> bool {
    h.inner == Some(h.index_spec())
}

/// Reverses the block `y` of the cycle `x y z` (or `x y`, when `z` is
/// empty) that the tour is: the arcs `(a, b)` and `(c, d)` at both ends of
/// `y` are flipped in the direction in which the tour walks them, which the
/// relation of the nodes `ra`, `rb` (neighbours on the cycle) shows.
fn flip_oriented<T: Tour>(
    tour: &mut T,
    ra: &TourNode,
    rb: &TourNode,
    a: &TourNode,
    b: &TourNode,
    c: &TourNode,
    d: &TourNode,
    Ghost(x): Ghost<Seq<usize>>,
    Ghost(y): Ghost<Seq<usize>>,
    Ghost(z): Ghost<Seq<usize>>,
    Ghost(i): Ghost<int>,
)
    requires
        old(tour).valid(),
        old(tour).tour_view().len() >= 3,
        same_cycle(old(tour).tour_view(), x + y + z),
        x.len() > 0,
        y.len() > 0,
        0 <= i < old(tour).tour_view().len(),
        is_handle(ra) && is_handle(rb) && is_handle(a) && is_handle(b) && is_handle(c) && is_handle(d),
        ix(ra) == (x + y + z)[i],
        ix(rb) == (x + y + z)[wrap(i + 1, old(tour).tour_view().len() as int)],
        ix(a) == x.last(),
        ix(b) == y[0],
        ix(c) == y.last(),
        ix(d) == if z.len() > 0 {
            z[0]
        } else {
            x[0]
        },
    ensures
        final(tour).valid(),
        final(tour).visited_flags() == old(tour).visited_flags(),
        final(tour).cand_lists() == old(tour).cand_lists(),
        same_cycle(final(tour).tour_view(), x + reversed(y) + z),
        final(tour).tour_view().len() == old(tour).tour_view().len(),
        oriented_step(*old(tour), *final(tour), ix(ra), ix(rb), ix(a), ix(b), ix(c), ix(d)),
{
    let ghost s = tour.tour_view();
    proof {
        tour.lemma_valid();
        lemma_orient_rel(s, x + y + z, i);
        lemma_step_arcs(s, x, y, z);
    }
    match tour.relation(ra, rb) {
        NodeRel::Predecessor => {
            proof {
                assert(next_in(s, ix(ra)) == ix(rb));
            }
            tour.flip(a, b, c, d);
        },
        NodeRel::Successor => {
            proof {
                assert(next_in(s, ix(ra)) != ix(rb));
            }
            tour.flip(b, a, d, c);
        },
        NodeRel::Neither => {
            proof {
                assert(false);
            }
        },
    }
    proof {
        if z.len() > 0 {
            lemma_step3(s, tour.tour_view(), x, y, z);
        } else {
            assert(x + y + z =~= x + y);
            assert(x + reversed(y) + z =~= x + reversed(y));
            lemma_step2(s, tour.tour_view(), x, y);
        }
        tour.lemma_valid();
        lemma_same_len(tour.tour_view(), x + reversed(y) + z);
        lemma_same_len(s, x + y + z);
    }
}

/// `n` is the tour `s` after the flips that the 3-opt move `m` on the arcs
/// `(f1, t1), (f2, t2), (f3, t3)` makes, one after the other: a move of one
/// flip is that flip; the later flips of a longer move go by the direction
/// in which the tour then walks its blocks.
pub open spec fn opt3_steps<T: Tour>(
    s: T,
    n: T,
    f1: usize,
    t1: usize,
    f2: usize,
    t2: usize,
    f3: usize,
    t3: usize,
    m: Opt3Move,
) -> bool {
    match m {
        Opt3Move::Move1 => flip_step(s, n, f1, t1, f2, t2),
        Opt3Move::Move2 => flip_step(s, n, f2, t2, f3, t3),
        Opt3Move::Move3 => flip_step(s, n, f1, t1, f3, t3),
        Opt3Move::Move4 => exists|s1: T|
            #[trigger] flip_step(s, s1, f1, t1, f2, t2) && oriented_step(s1, n, f1, f2, f1, f2, f3, t3),
        Opt3Move::Move5 => exists|s1: T|
            #[trigger] flip_step(s, s1, f2, t2, f3, t3) && oriented_step(s1, n, f2, f3, f1, t1, f2, f3),
        Opt3Move::Move6 => exists|s1: T|
            #[trigger] flip_step(s, s1, f1, t1, f3, t3) && oriented_step(s1, n, f1, f3, f1, f3, t2, f2),
        Opt3Move::Move7 => exists|s1: T, s2: T|
            #[trigger] flip_step(s, s1, f1, t1, f2, t2) && #[trigger] oriented_step(s1, s2, f1, f2, f1, f2, f3, t3)
                && oriented_step(s2, n, f1, f3, f1, f3, t2, t1),
    }
}

/// Executes a 3-opt move on the arcs `(f1, t1), (f2, t2), (f3, t3)`,
/// taken in this order on a forward walk, as one, two or three 2-opt moves.
/// The tour becomes the cycle of blocks that `opt3_cycle` gives; a move of
/// one 2-opt move leaves the tour exactly as that flip does.
pub fn move_3_opt<T: Tour>(
    tour: &mut T,
    pair_1: (&TourNode, &TourNode),
    pair_2: (&TourNode, &TourNode),
    pair_3: (&TourNode, &TourNode),
    move_case: Opt3Move,
)
    requires
        old(tour).valid(),
        is_handle(pair_1.0) && is_handle(pair_1.1) && is_handle(pair_2.0) && is_handle(pair_2.1)
            && is_handle(pair_3.0) && is_handle(pair_3.1),
        arcs3(
            old(tour).tour_view(),
            ix(pair_1.0),
            ix(pair_1.1),
            ix(pair_2.0),
            ix(pair_2.1),
            ix(pair_3.0),
            ix(pair_3.1),
        ),
    ensures
        final(tour).valid(),
        final(tour).visited_flags() == old(tour).visited_flags(),
        final(tour).cand_lists() == old(tour).cand_lists(),
        same_cycle(
            final(tour).tour_view(),
            opt3_cycle(
                path(old(tour).tour_view(), ix(pair_1.1), ix(pair_2.0)),
                path(old(tour).tour_view(), ix(pair_2.1), ix(pair_3.0)),
                path(old(tour).tour_view(), ix(pair_3.1), ix(pair_1.0)),
                move_case,
            ),
        ),
        final(tour).tour_view().len() == old(tour).tour_view().len(),
        opt3_steps(
            *old(tour),
            *final(tour),
            ix(pair_1.0),
            ix(pair_1.1),
            ix(pair_2.0),
            ix(pair_2.1),
            ix(pair_3.0),
            ix(pair_3.1),
            move_case,
        ),
{
    let (f1, t1) = pair_1;
    let (f2, t2) = pair_2;
    let (f3, t3) = pair_3;
    let ghost s0 = tour.tour_view();
    let ghost t0 = *tour;
    let ghost a = path(s0, ix(t1), ix(f2));
    let ghost b = path(s0, ix(t2), ix(f3));
    let ghost c = path(s0, ix(t3), ix(f1));
    proof {
        tour.lemma_valid();
        lemma_blocks3(s0, ix(f1), ix(t1), ix(f2), ix(t2), ix(f3), ix(t3));
        lemma_cyc_rot(s0, a + b, c);
        assert(c + (a + b) =~= c + a + b);
        assert((a + b)[0] == ix(t1));
        assert((a + b).last() == ix(f3));
        lemma_reversed_add(a, b);
        lemma_reversed_twice(a);
        lemma_reversed_twice(b);
    }
    match move_case {
        Opt3Move::Move1 => {
            tour.flip(f1, t1, f2, t2);
            proof {
                lemma_step3(s0, tour.tour_view(), c, a, b);
            }
            proof {
                assert(flip_step(t0, *tour, ix(f1), ix(t1), ix(f2), ix(t2)));
            }
        },
        Opt3Move::Move2 => {
            tour.flip(f2, t2, f3, t3);
            proof {
                lemma_step3(s0, tour.tour_view(), a, b, c);
                lemma_same_rot(tour.tour_view(), a + reversed(b), c);
                assert(c + (a + reversed(b)) =~= c + a + reversed(b));
            }
            proof {
                assert(flip_step(t0, *tour, ix(f2), ix(t2), ix(f3), ix(t3)));
            }
        },
        Opt3Move::Move3 => {
            tour.flip(f1, t1, f3, t3);
            proof {
                lemma_step2(s0, tour.tour_view(), c, a + b);
                assert(c + (reversed(b) + reversed(a)) =~= c + reversed(b) + reversed(a));
            }
            proof {
                assert(flip_step(t0, *tour, ix(f1), ix(t1), ix(f3), ix(t3)));
            }
        },
        Opt3Move::Move4 => {
            tour.flip(f1, t1, f2, t2);
            let ghost s1 = *tour;
            proof {
                lemma_step3(s0, tour.tour_view(), c, a, b);
                assert(c + reversed(a) + b =~= c + (reversed(a) + b) + Seq::<usize>::empty());
                lemma_reversed_add(reversed(a), b);
            }
            flip_oriented(
                tour,
                f1,
                f2,
                f1,
                f2,
                f3,
                t3,
                Ghost(c),
                Ghost(reversed(a) + b),
                Ghost(Seq::<usize>::empty()),
                Ghost(c.len() - 1),
            );
            proof {
                assert(c + reversed(reversed(a) + b) + Seq::<usize>::empty() =~= c + reversed(b) + a);
            }
            proof {
                assert(flip_step(t0, s1, ix(f1), ix(t1), ix(f2), ix(t2)) && oriented_step(s1, *tour, ix(f1), ix(f2), ix(f1), ix(f2), ix(f3), ix(t3)));
            }
        },
        Opt3Move::Move5 => {
            tour.flip(f2, t2, f3, t3);
            let ghost s1 = *tour;
            proof {
                lemma_step3(s0, tour.tour_view(), a, b, c);
                lemma_same_rot(tour.tour_view(), a + reversed(b), c);
                assert(c + (a + reversed(b)) =~= c + a + reversed(b));
            }
            flip_oriented(
                tour,
                f2,
                f3,
                f1,
                t1,
                f2,
                f3,
                Ghost(c),
                Ghost(a),
                Ghost(reversed(b)),
                Ghost(c.len() + a.len() - 1),
            );
            proof {
                assert(flip_step(t0, s1, ix(f2), ix(t2), ix(f3), ix(t3)) && oriented_step(s1, *tour, ix(f2), ix(f3), ix(f1), ix(t1), ix(f2), ix(f3)));
            }
        },
        Opt3Move::Move6 => {
            tour.flip(f1, t1, f3, t3);
            let ghost s1 = *tour;
            proof {
                lemma_step2(s0, tour.tour_view(), c, a + b);
                assert(c + (reversed(b) + reversed(a)) =~= c + reversed(b) + reversed(a));
            }
            flip_oriented(
                tour,
                f1,
                f3,
                f1,
                f3,
                t2,
                f2,
                Ghost(c),
                Ghost(reversed(b)),
                Ghost(reversed(a)),
                Ghost(c.len() - 1),
            );
            proof {
                assert(flip_step(t0, s1, ix(f1), ix(t1), ix(f3), ix(t3)) && oriented_step(s1, *tour, ix(f1), ix(f3), ix(f1), ix(f3), ix(t2), ix(f2)));
            }
        },
        Opt3Move::Move7 => {
            tour.flip(f1, t1, f2, t2);
            let ghost s1 = *tour;
            proof {
                lemma_step3(s0, tour.tour_view(), c, a, b);
                assert(c + reversed(a) + b =~= c + (reversed(a) + b) + Seq::<usize>::empty());
                lemma_reversed_add(reversed(a), b);
            }
            flip_oriented(
                tour,
                f1,
                f2,
                f1,
                f2,
                f3,
                t3,
                Ghost(c),
                Ghost(reversed(a) + b),
                Ghost(Seq::<usize>::empty()),
                Ghost(c.len() - 1),
            );
            let ghost s2 = *tour;
            proof {
                assert(c + reversed(reversed(a) + b) + Seq::<usize>::empty() =~= c + reversed(b) + a);
            }
            flip_oriented(
                tour,
                f1,
                f3,
                f1,
                f3,
                t2,
                t1,
                Ghost(c),
                Ghost(reversed(b)),
                Ghost(a),
                Ghost(c.len() - 1),
            );
            proof {
                assert(flip_step(t0, s1, ix(f1), ix(t1), ix(f2), ix(t2)) && oriented_step(s1, s2, ix(f1), ix(f2), ix(f1), ix(f2), ix(f3), ix(t3)) && oriented_step(s2, *tour, ix(f1), ix(f3), ix(f1), ix(f3), ix(t2), ix(t1)));
            }
        },
    }
    proof {
        tour.lemma_valid();
        lemma_same_len(tour.tour_view(), opt3_cycle(a, b, c, move_case));
        assert(opt3_cycle(a, b, c, move_case).len() == a.len() + b.len() + c.len());
    }
}

/// Purely sequential 4-opt moves. With the blocks `a = t1 .. f2`,
/// `b = t2 .. f3`, `c = t3 .. f4` and `d = t4 .. f1`, each move gives the
/// cycle `opt4_cycle(a, b, c, d, move)`.
#[derive(Clone, Copy, Debug, Eq, PartialEq, Structural)]
pub enum Opt4SeqMove {
    /// A sequential 4-opt move that results in [f1-f2]-[t1-f3]-[t2-f4]-[t3-t4].
    ///
    /// This move comprises of [`Opt3Move::Move5`] and a [`move_2_opt`] acting on the last two pairs.
    Move1,
    /// A sequential 4-opt move that results in [f1-t2]-[f3-t1]-[f2-f4]-[t3-t4].
    ///
    /// This move comprises of [`Opt3Move::Move7`] and a [`move_2_opt`] acting on the last two pairs.
    Move2,
    /// A sequential 4-opt move that results in [f1-t2]-[f3-f2]-[t1-f4]-[t3-t4].
    ///
    /// This move comprises of [`Opt3Move::Move6`] and a [`move_2_opt`] acting on the last two pairs.
    Move3,
    /// A sequential 4-opt move that results in [f1-f3]-[t2-t1]-[f2-f4]-[t3-t4].
    ///
    /// This move comprises of [`Opt3Move::Move4`] and a [`move_2_opt`] acting on the first and last pairs.
    Move4,
    /// A sequential 4-opt move that results in [f1-t3]-[f4-t1]-[f2-f3]-[t2-t4].
    ///
    /// This move comprises of [`Opt4SeqMove::Move3`] and a [`move_2_opt`] acting on the last two pairs.
    Move5,
    /// A sequential 4-opt move that results in [f1-t3]-[f4-f2]-[t1-t2]-[f3-t4].
    ///
    /// This move comprises of [`Opt4SeqMove::Move4`] and a [`move_2_opt`] acting on the last two pairs.
    Move6,
    /// A sequential 4-opt move that results in [f1-f4]-[t3-t1]-[f2-f3]-[t2-t4].
    ///
    /// This move comprises of [`Opt3Move::Move6`] and a [`move_2_opt`] acting on the first and last pairs.
    Move7,
    /// A sequential 4-opt move that results in [f1-f4]-[t3-f2]-[t1-t2]-[f3-t4].
    ///
    /// This move comprises of [`Opt3Move::Move4`] and a [`move_2_opt`] acting on the first and last pairs.
    Move8,
    /// A sequential 4-opt move that results in [f1-f4]-[t3-f2]-[t1-f3]-[t2-t4].
    ///
    /// This move comprises of [`Opt3Move::Move7`] and a [`move_2_opt`] acting on the first and last pairs.
    Move9,
    /// A sequential 4-opt move that results in [f1-f2]-[t1-t3]-[f4-t2]-[f3-t4].
    ///
    /// This move comprises of [`Opt4SeqMove::Move1`] and a [`move_2_opt`] acting on the second and last pairs.
    Move10,
    /// A sequential 4-opt move that results in [f1-f2]-[t1-t3]-[f4-f3]-[t2-t4].
    ///
    /// This move comprises of [`Opt4SeqMove::Move7`] and a [`move_2_opt`] acting on the first and third pairs.
    Move11,
    /// A sequential 4-opt move that results in [f1-f2]-[t1-f4]-[t3-t2]-[f3-t4].
    ///
    /// This move comprises of [`Opt3Move::Move5`] and a [`move_2_opt`] acting on the second and last pairs.
    Move12,
    /// A sequential 4-opt move that results in [f1-t2]-[f3-f4]-[t3-t1]-[f2-t4].
    ///
    /// This move comprises of [`Opt3Move::Move6`] and a [`move_2_opt`] acting on the second and last pairs.
    Move13,
    /// A sequential 4-opt move that results in [f1-t2]-[f3-f4]-[t3-f2]-[t1-t4].
    ///
    /// This move comprises of [`Opt3Move::Move7`] and a [`move_2_opt`] acting on the second and last pairs.
    Move14,
    /// A sequential 4-opt move that results in [f1-f3]-[t2-t3]-[f4-t1]-[f2-t4].
    ///
    /// This move comprises of [`Opt4SeqMove::Move12`] and a [`move_2_opt`] acting on the first and last pairs.
    Move15,
    /// A sequential 4-opt move that results in [f1-f3]-[t2-t3]-[f4-f2]-[t1-t4].
    ///
    /// Three 2-opt moves: on the second and third pairs, on the first and last pairs, then on the first and third pairs.
    Move16,
    /// A sequential 4-opt move that results in [f1-f3]-[t2-f4]-[t3-f2]-[t1-t4].
    ///
    /// This move comprises of [`Opt3Move::Move4`] and a [`move_2_opt`] acting on the second and last pairs.
    Move17,
    /// A sequential 4-opt move that results in [f1-t3]-[f4-t2]-[f3-f2]-[t1-t4].
    ///
    /// Three 2-opt moves: on the second and third pairs, on the third and last pairs, then on the first and last pairs.
    Move18,
    /// A sequential 4-opt move that results in [f1-t3]-[f4-f3]-[t2-t1]-[f2-t4].
    ///
    /// Three 2-opt moves: on the first and second pairs, on the third and last pairs, then on the first and last pairs.
    Move19,
    /// A sequential 4-opt move that results in [f1-f4]-[t3-t2]-[f3-t1]-[f2-t4].
    ///
    /// This move comprises of [`Opt3Move::Move5`] and a [`move_2_opt`] acting on the first and last pairs.
    Move20,
}

/// The cycle of blocks that a 4-opt move makes of the blocks `a b c d`.
pub open spec fn opt4_cycle(a: Seq<usize>, b: Seq<usize>, c: Seq<usize>, d: Seq<usize>, m: Opt4SeqMove) -> Seq<usize> {
    let ra = reversed(a);
    let rb = reversed(b);
    let rc = reversed(c);
    match m {
        Opt4SeqMove::Move1 => d + ra + rb + rc,
        Opt4SeqMove::Move2 => d + b + a + rc,
        Opt4SeqMove::Move3 => d + b + ra + rc,
        Opt4SeqMove::Move4 => d + rb + a + rc,
        Opt4SeqMove::Move5 => d + c + a + rb,
        Opt4SeqMove::Move6 => d + c + ra + b,
        Opt4SeqMove::Move7 => d + rc + a + rb,
        Opt4SeqMove::Move8 => d + rc + ra + b,
        Opt4SeqMove::Move9 => d + rc + ra + rb,
        Opt4SeqMove::Move10 => d + ra + c + b,
        Opt4SeqMove::Move11 => d + ra + c + rb,
        Opt4SeqMove::Move12 => d + ra + rc + b,
        Opt4SeqMove::Move13 => d + b + rc + a,
        Opt4SeqMove::Move14 => d + b + rc + ra,
        Opt4SeqMove::Move15 => d + rb + c + a,
        Opt4SeqMove::Move16 => d + rb + c + ra,
        Opt4SeqMove::Move17 => d + rb + rc + ra,
        Opt4SeqMove::Move18 => d + c + b + ra,
        Opt4SeqMove::Move19 => d + c + rb + a,
        Opt4SeqMove::Move20 => d + rc + b + a,
    }
}

/// How many 4-opt moves a 4-opt move is built on.
pub open spec fn opt4_depth(m: Opt4SeqMove) -> nat {
    match m {
        Opt4SeqMove::Move5 | Opt4SeqMove::Move6 | Opt4SeqMove::Move10 | Opt4SeqMove::Move11 | Opt4SeqMove::Move15 => 1,
        _ => 0,
    }
}

/// `n` is the tour `s` after the flips of a 4-opt move `m` on the arcs
/// `(f1, t1), .., (f4, t4)` that does not build on another 4-opt move: the
/// 3-opt move or the flip it starts with, then its further flips, which go
/// by the direction in which the tour then walks its blocks.
pub open spec fn opt4_base_steps<T: Tour>(
    s: T,
    n: T,
    f1: usize,
    t1: usize,
    f2: usize,
    t2: usize,
    f3: usize,
    t3: usize,
    f4: usize,
    t4: usize,
    m: Opt4SeqMove,
) -> bool {
    match m {
        Opt4SeqMove::Move1 => exists|s1: T|
            #[trigger] opt3_steps(s, s1, f1, t1, f2, t2, f3, t3, Opt3Move::Move5) && oriented_step(s1, n, t2, t3, t2, t3, f4, t4),
        Opt4SeqMove::Move2 => exists|s1: T|
            #[trigger] opt3_steps(s, s1, f1, t1, f2, t2, f3, t3, Opt3Move::Move7) && oriented_step(s1, n, f2, t3, f2, t3, f4, t4),
        Opt4SeqMove::Move3 => exists|s1: T|
            #[trigger] opt3_steps(s, s1, f1, t1, f2, t2, f3, t3, Opt3Move::Move6) && oriented_step(s1, n, t1, t3, t1, t3, f4, t4),
        Opt4SeqMove::Move4 => exists|s1: T|
            #[trigger] opt3_steps(s, s1, f1, t1, f2, t2, f3, t3, Opt3Move::Move4) && oriented_step(s1, n, f2, t3, f2, t3, f4, t4),
        Opt4SeqMove::Move7 => exists|s1: T|
            #[trigger] opt3_steps(s, s1, f1, t1, f2, t2, f3, t3, Opt3Move::Move6) && oriented_step(s1, n, f1, t2, f1, t2, f4, t4),
        Opt4SeqMove::Move8 => exists|s1: T|
            #[trigger] opt3_steps(s, s1, f1, t1, f2, t2, f3, t3, Opt3Move::Move4) && oriented_step(s1, n, f1, f3, f1, f3, f4, t4),
        Opt4SeqMove::Move9 => exists|s1: T|
            #[trigger] opt3_steps(s, s1, f1, t1, f2, t2, f3, t3, Opt3Move::Move7) && oriented_step(s1, n, f1, t2, f1, t2, f4, t4),
        Opt4SeqMove::Move12 => exists|s1: T|
            #[trigger] opt3_steps(s, s1, f1, t1, f2, t2, f3, t3, Opt3Move::Move5) && oriented_step(s1, n, t1, f3, t1, f3, f4, t4),
        Opt4SeqMove::Move13 => exists|s1: T|
            #[trigger] opt3_steps(s, s1, f1, t1, f2, t2, f3, t3, Opt3Move::Move6) && oriented_step(s1, n, f3, f2, f3, f2, f4, t4),
        Opt4SeqMove::Move14 => exists|s1: T|
            #[trigger] opt3_steps(s, s1, f1, t1, f2, t2, f3, t3, Opt3Move::Move7) && oriented_step(s1, n, f3, t1, f3, t1, f4, t4),
        Opt4SeqMove::Move16 => exists|s1: T, s2: T|
            #[trigger] flip_step(s, s1, f2, t2, f3, t3) && #[trigger] oriented_step(s1, s2, f1, t1, f1, t1, f4, t4) && oriented_step(s2, n, f1, f4, f1, f4, f3, f2),
        Opt4SeqMove::Move17 => exists|s1: T|
            #[trigger] opt3_steps(s, s1, f1, t1, f2, t2, f3, t3, Opt3Move::Move4) && oriented_step(s1, n, t2, t1, t2, t1, f4, t4),
        Opt4SeqMove::Move18 => exists|s1: T, s2: T|
            #[trigger] flip_step(s, s1, f2, t2, f3, t3) && #[trigger] oriented_step(s1, s2, t2, t3, t2, t3, f4, t4) && oriented_step(s2, n, f1, t1, f1, t1, t3, t4),
        Opt4SeqMove::Move19 => exists|s1: T, s2: T|
            #[trigger] flip_step(s, s1, f1, t1, f2, t2) && #[trigger] oriented_step(s1, s2, f3, t3, f3, t3, f4, t4) && oriented_step(s2, n, f1, f2, f1, f2, t3, t4),
        Opt4SeqMove::Move20 => exists|s1: T|
            #[trigger] opt3_steps(s, s1, f1, t1, f2, t2, f3, t3, Opt3Move::Move5) && oriented_step(s1, n, f1, f2, f1, f2, f4, t4),
        _ => false,
    }
}

/// `n` is the tour `s` after the flips that the 4-opt move `m` on the arcs
/// `(f1, t1), .., (f4, t4)` makes, one after the other: a move built on
/// another 4-opt move makes that move's flips, then one more.
pub open spec fn opt4_steps<T: Tour>(
    s: T,
    n: T,
    f1: usize,
    t1: usize,
    f2: usize,
    t2: usize,
    f3: usize,
    t3: usize,
    f4: usize,
    t4: usize,
    m: Opt4SeqMove,
) -> bool {
    match m {
        Opt4SeqMove::Move5 => exists|s1: T|
            #[trigger] opt4_base_steps(s, s1, f1, t1, f2, t2, f3, t3, f4, t4, Opt4SeqMove::Move3) && oriented_step(s1, n, f1, t2, f1, t2, t3, t4),
        Opt4SeqMove::Move6 => exists|s1: T|
            #[trigger] opt4_base_steps(s, s1, f1, t1, f2, t2, f3, t3, f4, t4, Opt4SeqMove::Move4) && oriented_step(s1, n, f1, f3, f1, f3, t3, t4),
        Opt4SeqMove::Move10 => exists|s1: T|
            #[trigger] opt4_base_steps(s, s1, f1, t1, f2, t2, f3, t3, f4, t4, Opt4SeqMove::Move1) && oriented_step(s1, n, t1, f3, t1, f3, t3, t4),
        Opt4SeqMove::Move11 => exists|s1: T|
            #[trigger] opt4_base_steps(s, s1, f1, t1, f2, t2, f3, t3, f4, t4, Opt4SeqMove::Move7) && oriented_step(s1, n, f1, f4, f1, f4, f2, f3),
        Opt4SeqMove::Move15 => exists|s1: T|
            #[trigger] opt4_base_steps(s, s1, f1, t1, f2, t2, f3, t3, f4, t4, Opt4SeqMove::Move12) && oriented_step(s1, n, f1, f2, f1, f2, f3, t4),
        _ => opt4_base_steps(s, n, f1, t1, f2, t2, f3, t3, f4, t4, m),
    }
}

/// The 4-opt moves made of a 3-opt move and one more flip: `Move1` to
/// `Move4` and `Move7` to `Move9`.
#[verifier::spinoff_prover]
#[verifier::rlimit(100)]
fn move_4_opt_a<T: Tour>(
    tour: &mut T,
    pair_1: (&TourNode, &TourNode),
    pair_2: (&TourNode, &TourNode),
    pair_3: (&TourNode, &TourNode),
    pair_4: (&TourNode, &TourNode),
    move_case: Opt4SeqMove,
)
    requires
        old(tour).valid(),
        move_case is Move1 || move_case is Move2 || move_case is Move3 || move_case is Move4 || move_case is Move7 || move_case is Move8 || move_case is Move9,
        is_handle(pair_1.0) && is_handle(pair_1.1) && is_handle(pair_2.0) && is_handle(pair_2.1)
            && is_handle(pair_3.0) && is_handle(pair_3.1) && is_handle(pair_4.0) && is_handle(pair_4.1),
        arcs4(
            old(tour).tour_view(),
            ix(pair_1.0),
            ix(pair_1.1),
            ix(pair_2.0),
            ix(pair_2.1),
            ix(pair_3.0),
            ix(pair_3.1),
            ix(pair_4.0),
            ix(pair_4.1),
        ),
    ensures
        final(tour).valid(),
        final(tour).visited_flags() == old(tour).visited_flags(),
        final(tour).cand_lists() == old(tour).cand_lists(),
        same_cycle(
            final(tour).tour_view(),
            opt4_cycle(
                path(old(tour).tour_view(), ix(pair_1.1), ix(pair_2.0)),
                path(old(tour).tour_view(), ix(pair_2.1), ix(pair_3.0)),
                path(old(tour).tour_view(), ix(pair_3.1), ix(pair_4.0)),
                path(old(tour).tour_view(), ix(pair_4.1), ix(pair_1.0)),
                move_case,
            ),
        ),
        final(tour).tour_view().len() == old(tour).tour_view().len(),
        opt4_steps(
            *old(tour),
            *final(tour),
            ix(pair_1.0),
            ix(pair_1.1),
            ix(pair_2.0),
            ix(pair_2.1),
            ix(pair_3.0),
            ix(pair_3.1),
            ix(pair_4.0),
            ix(pair_4.1),
            move_case,
        ),
{
    let (f1, t1) = pair_1;
    let (f2, t2) = pair_2;
    let (f3, t3) = pair_3;
    let (f4, t4) = pair_4;
    let ghost s0 = tour.tour_view();
    let ghost t0 = *tour;
    let ghost a = path(s0, ix(t1), ix(f2));
    let ghost b = path(s0, ix(t2), ix(f3));
    let ghost c = path(s0, ix(t3), ix(f4));
    let ghost d = path(s0, ix(t4), ix(f1));
    let ghost ra = reversed(a);
    let ghost rb = reversed(b);
    let ghost rc = reversed(c);
    proof {
        tour.lemma_valid();
        lemma_blocks4(s0, ix(f1), ix(t1), ix(f2), ix(t2), ix(f3), ix(t3), ix(f4), ix(t4));
        assert(a + b + c + d =~= a + b + (c + d));
        lemma_cyc_rot(s0, a + b + c, d);
        lemma_reversed_twice(a);
        lemma_reversed_twice(b);
        lemma_reversed_twice(c);
    }
    match move_case {
        Opt4SeqMove::Move1 => {
            move_3_opt(tour, pair_1, pair_2, pair_3, Opt3Move::Move5);
            let ghost s1 = *tour;
            proof {
                assert((c + d) + ra + rb =~= c + (d + ra + rb));
                lemma_same_rot(tour.tour_view(), c, d + ra + rb);
            }
            proof {
                assert(d + ra + rb + c =~= (d + ra + rb) + c + Seq::<usize>::empty());
            }
            flip_oriented(
                tour,
                t2,
                t3,
                t2,
                t3,
                f4,
                t4,
                Ghost((d + ra + rb)),
                Ghost(c),
                Ghost(Seq::<usize>::empty()),
                Ghost((d + ra + rb).len() - 1),
            );
            proof {
                assert((d + ra + rb) + reversed(c) + Seq::<usize>::empty() =~= d + ra + rb + rc);
            }
            proof {
                assert(opt3_steps(t0, s1, ix(f1), ix(t1), ix(f2), ix(t2), ix(f3), ix(t3), Opt3Move::Move5) && oriented_step(s1, *tour, ix(t2), ix(t3), ix(t2), ix(t3), ix(f4), ix(t4)));
                assert(opt4_steps(t0, *tour, ix(f1), ix(t1), ix(f2), ix(t2), ix(f3), ix(t3), ix(f4), ix(t4), Opt4SeqMove::Move1));
            }
        },
        Opt4SeqMove::Move2 => {
            move_3_opt(tour, pair_1, pair_2, pair_3, Opt3Move::Move7);
            let ghost s1 = *tour;
            proof {
                assert((c + d) + b + a =~= c + (d + b + a));
                lemma_same_rot(tour.tour_view(), c, d + b + a);
            }
            proof {
                assert(d + b + a + c =~= (d + b + a) + c + Seq::<usize>::empty());
            }
            flip_oriented(
                tour,
                f2,
                t3,
                f2,
                t3,
                f4,
                t4,
                Ghost((d + b + a)),
                Ghost(c),
                Ghost(Seq::<usize>::empty()),
                Ghost((d + b + a).len() - 1),
            );
            proof {
                assert((d + b + a) + reversed(c) + Seq::<usize>::empty() =~= d + b + a + rc);
            }
            proof {
                assert(opt3_steps(t0, s1, ix(f1), ix(t1), ix(f2), ix(t2), ix(f3), ix(t3), Opt3Move::Move7) && oriented_step(s1, *tour, ix(f2), ix(t3), ix(f2), ix(t3), ix(f4), ix(t4)));
                assert(opt4_steps(t0, *tour, ix(f1), ix(t1), ix(f2), ix(t2), ix(f3), ix(t3), ix(f4), ix(t4), Opt4SeqMove::Move2));
            }
        },
        Opt4SeqMove::Move3 => {
            move_3_opt(tour, pair_1, pair_2, pair_3, Opt3Move::Move6);
            let ghost s1 = *tour;
            proof {
                assert((c + d) + b + ra =~= c + (d + b + ra));
                lemma_same_rot(tour.tour_view(), c, d + b + ra);
            }
            proof {
                assert(d + b + ra + c =~= (d + b + ra) + c + Seq::<usize>::empty());
            }
            flip_oriented(
                tour,
                t1,
                t3,
                t1,
                t3,
                f4,
                t4,
                Ghost((d + b + ra)),
                Ghost(c),
                Ghost(Seq::<usize>::empty()),
                Ghost((d + b + ra).len() - 1),
            );
            proof {
                assert((d + b + ra) + reversed(c) + Seq::<usize>::empty() =~= d + b + ra + rc);
            }
            proof {
                assert(opt3_steps(t0, s1, ix(f1), ix(t1), ix(f2), ix(t2), ix(f3), ix(t3), Opt3Move::Move6) && oriented_step(s1, *tour, ix(t1), ix(t3), ix(t1), ix(t3), ix(f4), ix(t4)));
                assert(opt4_steps(t0, *tour, ix(f1), ix(t1), ix(f2), ix(t2), ix(f3), ix(t3), ix(f4), ix(t4), Opt4SeqMove::Move3));
            }
        },
        Opt4SeqMove::Move4 => {
            move_3_opt(tour, pair_1, pair_2, pair_3, Opt3Move::Move4);
            let ghost s1 = *tour;
            proof {
                assert((c + d) + rb + a =~= c + (d + rb + a));
                lemma_same_rot(tour.tour_view(), c, d + rb + a);
            }
            proof {
                assert(d + rb + a + c =~= (d + rb + a) + c + Seq::<usize>::empty());
            }
            flip_oriented(
                tour,
                f2,
                t3,
                f2,
                t3,
                f4,
                t4,
                Ghost((d + rb + a)),
                Ghost(c),
                Ghost(Seq::<usize>::empty()),
                Ghost((d + rb + a).len() - 1),
            );
            proof {
                assert((d + rb + a) + reversed(c) + Seq::<usize>::empty() =~= d + rb + a + rc);
            }
            proof {
                assert(opt3_steps(t0, s1, ix(f1), ix(t1), ix(f2), ix(t2), ix(f3), ix(t3), Opt3Move::Move4) && oriented_step(s1, *tour, ix(f2), ix(t3), ix(f2), ix(t3), ix(f4), ix(t4)));
                assert(opt4_steps(t0, *tour, ix(f1), ix(t1), ix(f2), ix(t2), ix(f3), ix(t3), ix(f4), ix(t4), Opt4SeqMove::Move4));
            }
        },
        Opt4SeqMove::Move7 => {
            move_3_opt(tour, pair_1, pair_2, pair_3, Opt3Move::Move6);
            let ghost s1 = *tour;
            proof {
                assert((c + d) + b + ra =~= c + (d + b + ra));
                lemma_same_rot(tour.tour_view(), c, d + b + ra);
            }
            proof {
                assert(d + b + ra + c =~= d + (b + ra + c) + Seq::<usize>::empty());
            }
            flip_oriented(
                tour,
                f1,
                t2,
                f1,
                t2,
                f4,
                t4,
                Ghost(d),
                Ghost((b + ra + c)),
                Ghost(Seq::<usize>::empty()),
                Ghost(d.len() - 1),
            );
            proof {
                lemma_reversed_add(b + ra, c);
                lemma_reversed_add(b, ra);
                assert(d + reversed((b + ra + c)) + Seq::<usize>::empty() =~= d + rc + a + rb);
            }
            proof {
                assert(opt3_steps(t0, s1, ix(f1), ix(t1), ix(f2), ix(t2), ix(f3), ix(t3), Opt3Move::Move6) && oriented_step(s1, *tour, ix(f1), ix(t2), ix(f1), ix(t2), ix(f4), ix(t4)));
                assert(opt4_steps(t0, *tour, ix(f1), ix(t1), ix(f2), ix(t2), ix(f3), ix(t3), ix(f4), ix(t4), Opt4SeqMove::Move7));
            }
        },
        Opt4SeqMove::Move8 => {
            move_3_opt(tour, pair_1, pair_2, pair_3, Opt3Move::Move4);
            let ghost s1 = *tour;
            proof {
                assert((c + d) + rb + a =~= c + (d + rb + a));
                lemma_same_rot(tour.tour_view(), c, d + rb + a);
            }
            proof {
                assert(d + rb + a + c =~= d + (rb + a + c) + Seq::<usize>::empty());
            }
            flip_oriented(
                tour,
                f1,
                f3,
                f1,
                f3,
                f4,
                t4,
                Ghost(d),
                Ghost((rb + a + c)),
                Ghost(Seq::<usize>::empty()),
                Ghost(d.len() - 1),
            );
            proof {
                lemma_reversed_add(rb + a, c);
                lemma_reversed_add(rb, a);
                assert(d + reversed((rb + a + c)) + Seq::<usize>::empty() =~= d + rc + ra + b);
            }
            proof {
                assert(opt3_steps(t0, s1, ix(f1), ix(t1), ix(f2), ix(t2), ix(f3), ix(t3), Opt3Move::Move4) && oriented_step(s1, *tour, ix(f1), ix(f3), ix(f1), ix(f3), ix(f4), ix(t4)));
                assert(opt4_steps(t0, *tour, ix(f1), ix(t1), ix(f2), ix(t2), ix(f3), ix(t3), ix(f4), ix(t4), Opt4SeqMove::Move8));
            }
        },
        Opt4SeqMove::Move9 => {
            move_3_opt(tour, pair_1, pair_2, pair_3, Opt3Move::Move7);
            let ghost s1 = *tour;
            proof {
                assert((c + d) + b + a =~= c + (d + b + a));
                lemma_same_rot(tour.tour_view(), c, d + b + a);
            }
            proof {
                assert(d + b + a + c =~= d + (b + a + c) + Seq::<usize>::empty());
            }
            flip_oriented(
                tour,
                f1,
                t2,
                f1,
                t2,
                f4,
                t4,
                Ghost(d),
                Ghost((b + a + c)),
                Ghost(Seq::<usize>::empty()),
                Ghost(d.len() - 1),
            );
            proof {
                lemma_reversed_add(b + a, c);
                lemma_reversed_add(b, a);
                assert(d + reversed((b + a + c)) + Seq::<usize>::empty() =~= d + rc + ra + rb);
            }
            proof {
                assert(opt3_steps(t0, s1, ix(f1), ix(t1), ix(f2), ix(t2), ix(f3), ix(t3), Opt3Move::Move7) && oriented_step(s1, *tour, ix(f1), ix(t2), ix(f1), ix(t2), ix(f4), ix(t4)));
                assert(opt4_steps(t0, *tour, ix(f1), ix(t1), ix(f2), ix(t2), ix(f3), ix(t3), ix(f4), ix(t4), Opt4SeqMove::Move9));
            }
        },
        _ => {
            proof {
                assert(false);
            }
        },
    }
    proof {
        tour.lemma_valid();
        lemma_same_len(tour.tour_view(), opt4_cycle(a, b, c, d, move_case));
        assert(opt4_cycle(a, b, c, d, move_case).len() == a.len() + b.len() + c.len() + d.len());
    }
}

/// The other 4-opt moves that do not build on a 4-opt move: `Move12` to
/// `Move14`, `Move17` and `Move20` (a 3-opt move and one more flip), and
/// `Move16`, `Move18`, `Move19` (three flips).
#[verifier::spinoff_prover]
#[verifier::rlimit(100)]
fn move_4_opt_b<T: Tour>(
    tour: &mut T,
    pair_1: (&TourNode, &TourNode),
    pair_2: (&TourNode, &TourNode),
    pair_3: (&TourNode, &TourNode),
    pair_4: (&TourNode, &TourNode),
    move_case: Opt4SeqMove,
)
    requires
        old(tour).valid(),
        move_case is Move12 || move_case is Move13 || move_case is Move14 || move_case is Move17 || move_case is Move20 || move_case is Move16 || move_case is Move18 || move_case is Move19,
        is_handle(pair_1.0) && is_handle(pair_1.1) && is_handle(pair_2.0) && is_handle(pair_2.1)
            && is_handle(pair_3.0) && is_handle(pair_3.1) && is_handle(pair_4.0) && is_handle(pair_4.1),
        arcs4(
            old(tour).tour_view(),
            ix(pair_1.0),
            ix(pair_1.1),
            ix(pair_2.0),
            ix(pair_2.1),
            ix(pair_3.0),
            ix(pair_3.1),
            ix(pair_4.0),
            ix(pair_4.1),
        ),
    ensures
        final(tour).valid(),
        final(tour).visited_flags() == old(tour).visited_flags(),
        final(tour).cand_lists() == old(tour).cand_lists(),
        same_cycle(
            final(tour).tour_view(),
            opt4_cycle(
                path(old(tour).tour_view(), ix(pair_1.1), ix(pair_2.0)),
                path(old(tour).tour_view(), ix(pair_2.1), ix(pair_3.0)),
                path(old(tour).tour_view(), ix(pair_3.1), ix(pair_4.0)),
                path(old(tour).tour_view(), ix(pair_4.1), ix(pair_1.0)),
                move_case,
            ),
        ),
        final(tour).tour_view().len() == old(tour).tour_view().len(),
        opt4_steps(
            *old(tour),
            *final(tour),
            ix(pair_1.0),
            ix(pair_1.1),
            ix(pair_2.0),
            ix(pair_2.1),
            ix(pair_3.0),
            ix(pair_3.1),
            ix(pair_4.0),
            ix(pair_4.1),
            move_case,
        ),
{
    let (f1, t1) = pair_1;
    let (f2, t2) = pair_2;
    let (f3, t3) = pair_3;
    let (f4, t4) = pair_4;
    let ghost s0 = tour.tour_view();
    let ghost t0 = *tour;
    let ghost a = path(s0, ix(t1), ix(f2));
    let ghost b = path(s0, ix(t2), ix(f3));
    let ghost c = path(s0, ix(t3), ix(f4));
    let ghost d = path(s0, ix(t4), ix(f1));
    let ghost ra = reversed(a);
    let ghost rb = reversed(b);
    let ghost rc = reversed(c);
    proof {
        tour.lemma_valid();
        lemma_blocks4(s0, ix(f1), ix(t1), ix(f2), ix(t2), ix(f3), ix(t3), ix(f4), ix(t4));
        assert(a + b + c + d =~= a + b + (c + d));
        lemma_cyc_rot(s0, a + b + c, d);
        lemma_reversed_twice(a);
        lemma_reversed_twice(b);
        lemma_reversed_twice(c);
    }
    match move_case {
        Opt4SeqMove::Move12 => {
            move_3_opt(tour, pair_1, pair_2, pair_3, Opt3Move::Move5);
            let ghost s1 = *tour;
            proof {
                assert((c + d) + ra + rb =~= c + (d + ra + rb));
                lemma_same_rot(tour.tour_view(), c, d + ra + rb);
            }
            proof {
                assert(d + ra + rb + c =~= (d + ra) + (rb + c) + Seq::<usize>::empty());
            }
            flip_oriented(
                tour,
                t1,
                f3,
                t1,
                f3,
                f4,
                t4,
                Ghost((d + ra)),
                Ghost((rb + c)),
                Ghost(Seq::<usize>::empty()),
                Ghost((d + ra).len() - 1),
            );
            proof {
                lemma_reversed_add(rb, c);
                assert((d + ra) + reversed((rb + c)) + Seq::<usize>::empty() =~= d + ra + rc + b);
            }
            proof {
                assert(opt3_steps(t0, s1, ix(f1), ix(t1), ix(f2), ix(t2), ix(f3), ix(t3), Opt3Move::Move5) && oriented_step(s1, *tour, ix(t1), ix(f3), ix(t1), ix(f3), ix(f4), ix(t4)));
                assert(opt4_steps(t0, *tour, ix(f1), ix(t1), ix(f2), ix(t2), ix(f3), ix(t3), ix(f4), ix(t4), Opt4SeqMove::Move12));
            }
        },
        Opt4SeqMove::Move13 => {
            move_3_opt(tour, pair_1, pair_2, pair_3, Opt3Move::Move6);
            let ghost s1 = *tour;
            proof {
                assert((c + d) + b + ra =~= c + (d + b + ra));
                lemma_same_rot(tour.tour_view(), c, d + b + ra);
            }
            proof {
                assert(d + b + ra + c =~= (d + b) + (ra + c) + Seq::<usize>::empty());
            }
            flip_oriented(
                tour,
                f3,
                f2,
                f3,
                f2,
                f4,
                t4,
                Ghost((d + b)),
                Ghost((ra + c)),
                Ghost(Seq::<usize>::empty()),
                Ghost((d + b).len() - 1),
            );
            proof {
                lemma_reversed_add(ra, c);
                assert((d + b) + reversed((ra + c)) + Seq::<usize>::empty() =~= d + b + rc + a);
            }
            proof {
                assert(opt3_steps(t0, s1, ix(f1), ix(t1), ix(f2), ix(t2), ix(f3), ix(t3), Opt3Move::Move6) && oriented_step(s1, *tour, ix(f3), ix(f2), ix(f3), ix(f2), ix(f4), ix(t4)));
                assert(opt4_steps(t0, *tour, ix(f1), ix(t1), ix(f2), ix(t2), ix(f3), ix(t3), ix(f4), ix(t4), Opt4SeqMove::Move13));
            }
        },
        Opt4SeqMove::Move14 => {
            move_3_opt(tour, pair_1, pair_2, pair_3, Opt3Move::Move7);
            let ghost s1 = *tour;
            proof {
                assert((c + d) + b + a =~= c + (d + b + a));
                lemma_same_rot(tour.tour_view(), c, d + b + a);
            }
            proof {
                assert(d + b + a + c =~= (d + b) + (a + c) + Seq::<usize>::empty());
            }
            flip_oriented(
                tour,
                f3,
                t1,
                f3,
                t1,
                f4,
                t4,
                Ghost((d + b)),
                Ghost((a + c)),
                Ghost(Seq::<usize>::empty()),
                Ghost((d + b).len() - 1),
            );
            proof {
                lemma_reversed_add(a, c);
                assert((d + b) + reversed((a + c)) + Seq::<usize>::empty() =~= d + b + rc + ra);
            }
            proof {
                assert(opt3_steps(t0, s1, ix(f1), ix(t1), ix(f2), ix(t2), ix(f3), ix(t3), Opt3Move::Move7) && oriented_step(s1, *tour, ix(f3), ix(t1), ix(f3), ix(t1), ix(f4), ix(t4)));
                assert(opt4_steps(t0, *tour, ix(f1), ix(t1), ix(f2), ix(t2), ix(f3), ix(t3), ix(f4), ix(t4), Opt4SeqMove::Move14));
            }
        },
        Opt4SeqMove::Move17 => {
            move_3_opt(tour, pair_1, pair_2, pair_3, Opt3Move::Move4);
            let ghost s1 = *tour;
            proof {
                assert((c + d) + rb + a =~= c + (d + rb + a));
                lemma_same_rot(tour.tour_view(), c, d + rb + a);
            }
            proof {
                assert(d + rb + a + c =~= (d + rb) + (a + c) + Seq::<usize>::empty());
            }
            flip_oriented(
                tour,
                t2,
                t1,
                t2,
                t1,
                f4,
                t4,
                Ghost((d + rb)),
                Ghost((a + c)),
                Ghost(Seq::<usize>::empty()),
                Ghost((d + rb).len() - 1),
            );
            proof {
                lemma_reversed_add(a, c);
                assert((d + rb) + reversed((a + c)) + Seq::<usize>::empty() =~= d + rb + rc + ra);
            }
            proof {
                assert(opt3_steps(t0, s1, ix(f1), ix(t1), ix(f2), ix(t2), ix(f3), ix(t3), Opt3Move::Move4) && oriented_step(s1, *tour, ix(t2), ix(t1), ix(t2), ix(t1), ix(f4), ix(t4)));
                assert(opt4_steps(t0, *tour, ix(f1), ix(t1), ix(f2), ix(t2), ix(f3), ix(t3), ix(f4), ix(t4), Opt4SeqMove::Move17));
            }
        },
        Opt4SeqMove::Move20 => {
            move_3_opt(tour, pair_1, pair_2, pair_3, Opt3Move::Move5);
            let ghost s1 = *tour;
            proof {
                assert((c + d) + ra + rb =~= c + (d + ra + rb));
                lemma_same_rot(tour.tour_view(), c, d + ra + rb);
            }
            proof {
                assert(d + ra + rb + c =~= d + (ra + rb + c) + Seq::<usize>::empty());
            }
            flip_oriented(
                tour,
                f1,
                f2,
                f1,
                f2,
                f4,
                t4,
                Ghost(d),
                Ghost((ra + rb + c)),
                Ghost(Seq::<usize>::empty()),
                Ghost(d.len() - 1),
            );
            proof {
                lemma_reversed_add(ra + rb, c);
                lemma_reversed_add(ra, rb);
                assert(d + reversed((ra + rb + c)) + Seq::<usize>::empty() =~= d + rc + b + a);
            }
            proof {
                assert(opt3_steps(t0, s1, ix(f1), ix(t1), ix(f2), ix(t2), ix(f3), ix(t3), Opt3Move::Move5) && oriented_step(s1, *tour, ix(f1), ix(f2), ix(f1), ix(f2), ix(f4), ix(t4)));
                assert(opt4_steps(t0, *tour, ix(f1), ix(t1), ix(f2), ix(t2), ix(f3), ix(t3), ix(f4), ix(t4), Opt4SeqMove::Move20));
            }
        },
        Opt4SeqMove::Move16 => {
            tour.flip(f2, t2, f3, t3);
            let ghost s1 = *tour;
            proof {
                lemma_step3(s0, tour.tour_view(), a, b, c + d);
                assert(a + rb + (c + d) =~= (a + rb + c) + d);
                lemma_same_rot(tour.tour_view(), a + rb + c, d);
                assert(d + (a + rb + c) =~= d + a + rb + c);
                tour.lemma_valid();
                lemma_same_len(tour.tour_view(), d + a + rb + c);
            }
            proof {
                assert(d + a + rb + c =~= d + (a + rb + c) + Seq::<usize>::empty());
            }
            flip_oriented(
                tour,
                f1,
                t1,
                f1,
                t1,
                f4,
                t4,
                Ghost(d),
                Ghost((a + rb + c)),
                Ghost(Seq::<usize>::empty()),
                Ghost(d.len() - 1),
            );
            let ghost s2 = *tour;
            proof {
                lemma_reversed_add(a + rb, c);
                lemma_reversed_add(a, rb);
                assert(d + reversed((a + rb + c)) + Seq::<usize>::empty() =~= d + rc + b + ra);
            }
            proof {
                assert(d + rc + b + ra =~= d + (rc + b) + ra);
            }
            flip_oriented(
                tour,
                f1,
                f4,
                f1,
                f4,
                f3,
                f2,
                Ghost(d),
                Ghost((rc + b)),
                Ghost(ra),
                Ghost(d.len() - 1),
            );
            proof {
                lemma_reversed_add(rc, b);
                assert(d + reversed((rc + b)) + ra =~= d + rb + c + ra);
            }
            proof {
                assert(flip_step(t0, s1, ix(f2), ix(t2), ix(f3), ix(t3)) && oriented_step(s1, s2, ix(f1), ix(t1), ix(f1), ix(t1), ix(f4), ix(t4)) && oriented_step(s2, *tour, ix(f1), ix(f4), ix(f1), ix(f4), ix(f3), ix(f2)));
                assert(opt4_steps(t0, *tour, ix(f1), ix(t1), ix(f2), ix(t2), ix(f3), ix(t3), ix(f4), ix(t4), Opt4SeqMove::Move16));
            }
        },
        Opt4SeqMove::Move18 => {
            tour.flip(f2, t2, f3, t3);
            let ghost s1 = *tour;
            proof {
                lemma_step3(s0, tour.tour_view(), a, b, c + d);
                assert(a + rb + (c + d) =~= (a + rb + c) + d);
                lemma_same_rot(tour.tour_view(), a + rb + c, d);
                assert(d + (a + rb + c) =~= d + a + rb + c);
                tour.lemma_valid();
                lemma_same_len(tour.tour_view(), d + a + rb + c);
            }
            proof {
                assert(d + a + rb + c =~= (d + a + rb) + c + Seq::<usize>::empty());
            }
            flip_oriented(
                tour,
                t2,
                t3,
                t2,
                t3,
                f4,
                t4,
                Ghost((d + a + rb)),
                Ghost(c),
                Ghost(Seq::<usize>::empty()),
                Ghost((d + a + rb).len() - 1),
            );
            let ghost s2 = *tour;
            proof {
                assert((d + a + rb) + reversed(c) + Seq::<usize>::empty() =~= d + a + rb + rc);
            }
            proof {
                assert(d + a + rb + rc =~= d + (a + rb + rc) + Seq::<usize>::empty());
            }
            flip_oriented(
                tour,
                f1,
                t1,
                f1,
                t1,
                t3,
                t4,
                Ghost(d),
                Ghost((a + rb + rc)),
                Ghost(Seq::<usize>::empty()),
                Ghost(d.len() - 1),
            );
            proof {
                lemma_reversed_add(a + rb, rc);
                lemma_reversed_add(a, rb);
                assert(d + reversed((a + rb + rc)) + Seq::<usize>::empty() =~= d + c + b + ra);
            }
            proof {
                assert(flip_step(t0, s1, ix(f2), ix(t2), ix(f3), ix(t3)) && oriented_step(s1, s2, ix(t2), ix(t3), ix(t2), ix(t3), ix(f4), ix(t4)) && oriented_step(s2, *tour, ix(f1), ix(t1), ix(f1), ix(t1), ix(t3), ix(t4)));
                assert(opt4_steps(t0, *tour, ix(f1), ix(t1), ix(f2), ix(t2), ix(f3), ix(t3), ix(f4), ix(t4), Opt4SeqMove::Move18));
            }
        },
        Opt4SeqMove::Move19 => {
            tour.flip(f1, t1, f2, t2);
            let ghost s1 = *tour;
            proof {
                assert(d + (a + b + c) =~= d + a + (b + c));
                lemma_step3(s0, tour.tour_view(), d, a, b + c);
                assert(d + ra + (b + c) =~= d + ra + b + c);
                tour.lemma_valid();
                lemma_same_len(tour.tour_view(), d + ra + b + c);
            }
            proof {
                assert(d + ra + b + c =~= (d + ra + b) + c + Seq::<usize>::empty());
            }
            flip_oriented(
                tour,
                f3,
                t3,
                f3,
                t3,
                f4,
                t4,
                Ghost((d + ra + b)),
                Ghost(c),
                Ghost(Seq::<usize>::empty()),
                Ghost((d + ra + b).len() - 1),
            );
            let ghost s2 = *tour;
            proof {
                assert((d + ra + b) + reversed(c) + Seq::<usize>::empty() =~= d + ra + b + rc);
            }
            proof {
                assert(d + ra + b + rc =~= d + (ra + b + rc) + Seq::<usize>::empty());
            }
            flip_oriented(
                tour,
                f1,
                f2,
                f1,
                f2,
                t3,
                t4,
                Ghost(d),
                Ghost((ra + b + rc)),
                Ghost(Seq::<usize>::empty()),
                Ghost(d.len() - 1),
            );
            proof {
                lemma_reversed_add(ra + b, rc);
                lemma_reversed_add(ra, b);
                assert(d + reversed((ra + b + rc)) + Seq::<usize>::empty() =~= d + c + rb + a);
            }
            proof {
                assert(flip_step(t0, s1, ix(f1), ix(t1), ix(f2), ix(t2)) && oriented_step(s1, s2, ix(f3), ix(t3), ix(f3), ix(t3), ix(f4), ix(t4)) && oriented_step(s2, *tour, ix(f1), ix(f2), ix(f1), ix(f2), ix(t3), ix(t4)));
                assert(opt4_steps(t0, *tour, ix(f1), ix(t1), ix(f2), ix(t2), ix(f3), ix(t3), ix(f4), ix(t4), Opt4SeqMove::Move19));
            }
        },
        _ => {
            proof {
                assert(false);
            }
        },
    }
    proof {
        tour.lemma_valid();
        lemma_same_len(tour.tour_view(), opt4_cycle(a, b, c, d, move_case));
        assert(opt4_cycle(a, b, c, d, move_case).len() == a.len() + b.len() + c.len() + d.len());
    }
}

/// Executes a 4-opt move on the arcs `(f1, t1), .., (f4, t4)`, taken in this
/// order on a forward walk, as two to four 2-opt moves.
/// The tour becomes the cycle of blocks that `opt4_cycle` gives, walked in
/// the direction that the chain of flips of `opt4_steps` leaves.
#[verifier::spinoff_prover]
#[verifier::rlimit(100)]
pub fn move_4_opt<T: Tour>(
    tour: &mut T,
    pair_1: (&TourNode, &TourNode),
    pair_2: (&TourNode, &TourNode),
    pair_3: (&TourNode, &TourNode),
    pair_4: (&TourNode, &TourNode),
    move_case: Opt4SeqMove,
)
    requires
        old(tour).valid(),
        is_handle(pair_1.0) && is_handle(pair_1.1) && is_handle(pair_2.0) && is_handle(pair_2.1)
            && is_handle(pair_3.0) && is_handle(pair_3.1) && is_handle(pair_4.0) && is_handle(pair_4.1),
        arcs4(
            old(tour).tour_view(),
            ix(pair_1.0),
            ix(pair_1.1),
            ix(pair_2.0),
            ix(pair_2.1),
            ix(pair_3.0),
            ix(pair_3.1),
            ix(pair_4.0),
            ix(pair_4.1),
        ),
    ensures
        final(tour).valid(),
        final(tour).visited_flags() == old(tour).visited_flags(),
        final(tour).cand_lists() == old(tour).cand_lists(),
        same_cycle(
            final(tour).tour_view(),
            opt4_cycle(
                path(old(tour).tour_view(), ix(pair_1.1), ix(pair_2.0)),
                path(old(tour).tour_view(), ix(pair_2.1), ix(pair_3.0)),
                path(old(tour).tour_view(), ix(pair_3.1), ix(pair_4.0)),
                path(old(tour).tour_view(), ix(pair_4.1), ix(pair_1.0)),
                move_case,
            ),
        ),
        final(tour).tour_view().len() == old(tour).tour_view().len(),
        opt4_steps(
            *old(tour),
            *final(tour),
            ix(pair_1.0),
            ix(pair_1.1),
            ix(pair_2.0),
            ix(pair_2.1),
            ix(pair_3.0),
            ix(pair_3.1),
            ix(pair_4.0),
            ix(pair_4.1),
            move_case,
        ),
    decreases opt4_depth(move_case),
{
    let (f1, t1) = pair_1;
    let (f2, t2) = pair_2;
    let (f3, t3) = pair_3;
    let (f4, t4) = pair_4;
    let ghost s0 = tour.tour_view();
    let ghost t0 = *tour;
    let ghost a = path(s0, ix(t1), ix(f2));
    let ghost b = path(s0, ix(t2), ix(f3));
    let ghost c = path(s0, ix(t3), ix(f4));
    let ghost d = path(s0, ix(t4), ix(f1));
    let ghost ra = reversed(a);
    let ghost rb = reversed(b);
    let ghost rc = reversed(c);
    proof {
        tour.lemma_valid();
        lemma_blocks4(s0, ix(f1), ix(t1), ix(f2), ix(t2), ix(f3), ix(t3), ix(f4), ix(t4));
        assert(a + b + c + d =~= a + b + (c + d));
        lemma_cyc_rot(s0, a + b + c, d);
        lemma_reversed_twice(a);
        lemma_reversed_twice(b);
        lemma_reversed_twice(c);
    }
    match move_case {
        Opt4SeqMove::Move5 => {
            move_4_opt(tour, pair_1, pair_2, pair_3, pair_4, Opt4SeqMove::Move3);
            let ghost s1 = *tour;
            proof {
                assert(d + b + ra + rc =~= d + (b + ra + rc) + Seq::<usize>::empty());
            }
            flip_oriented(
                tour,
                f1,
                t2,
                f1,
                t2,
                t3,
                t4,
                Ghost(d),
                Ghost((b + ra + rc)),
                Ghost(Seq::<usize>::empty()),
                Ghost(d.len() - 1),
            );
            proof {
                lemma_reversed_add(b + ra, rc);
                lemma_reversed_add(b, ra);
                assert(d + reversed((b + ra + rc)) + Seq::<usize>::empty() =~= d + c + a + rb);
            }
            proof {
                assert(opt4_base_steps(t0, s1, ix(f1), ix(t1), ix(f2), ix(t2), ix(f3), ix(t3), ix(f4), ix(t4), Opt4SeqMove::Move3) && oriented_step(s1, *tour, ix(f1), ix(t2), ix(f1), ix(t2), ix(t3), ix(t4)));
                assert(opt4_steps(t0, *tour, ix(f1), ix(t1), ix(f2), ix(t2), ix(f3), ix(t3), ix(f4), ix(t4), Opt4SeqMove::Move5));
            }
        },
        Opt4SeqMove::Move6 => {
            move_4_opt(tour, pair_1, pair_2, pair_3, pair_4, Opt4SeqMove::Move4);
            let ghost s1 = *tour;
            proof {
                assert(d + rb + a + rc =~= d + (rb + a + rc) + Seq::<usize>::empty());
            }
            flip_oriented(
                tour,
                f1,
                f3,
                f1,
                f3,
                t3,
                t4,
                Ghost(d),
                Ghost((rb + a + rc)),
                Ghost(Seq::<usize>::empty()),
                Ghost(d.len() - 1),
            );
            proof {
                lemma_reversed_add(rb + a, rc);
                lemma_reversed_add(rb, a);
                assert(d + reversed((rb + a + rc)) + Seq::<usize>::empty() =~= d + c + ra + b);
            }
            proof {
                assert(opt4_base_steps(t0, s1, ix(f1), ix(t1), ix(f2), ix(t2), ix(f3), ix(t3), ix(f4), ix(t4), Opt4SeqMove::Move4) && oriented_step(s1, *tour, ix(f1), ix(f3), ix(f1), ix(f3), ix(t3), ix(t4)));
                assert(opt4_steps(t0, *tour, ix(f1), ix(t1), ix(f2), ix(t2), ix(f3), ix(t3), ix(f4), ix(t4), Opt4SeqMove::Move6));
            }
        },
        Opt4SeqMove::Move10 => {
            move_4_opt(tour, pair_1, pair_2, pair_3, pair_4, Opt4SeqMove::Move1);
            let ghost s1 = *tour;
            proof {
                assert(d + ra + rb + rc =~= (d + ra) + (rb + rc) + Seq::<usize>::empty());
            }
            flip_oriented(
                tour,
                t1,
                f3,
                t1,
                f3,
                t3,
                t4,
                Ghost((d + ra)),
                Ghost((rb + rc)),
                Ghost(Seq::<usize>::empty()),
                Ghost((d + ra).len() - 1),
            );
            proof {
                lemma_reversed_add(rb, rc);
                assert((d + ra) + reversed((rb + rc)) + Seq::<usize>::empty() =~= d + ra + c + b);
            }
            proof {
                assert(opt4_base_steps(t0, s1, ix(f1), ix(t1), ix(f2), ix(t2), ix(f3), ix(t3), ix(f4), ix(t4), Opt4SeqMove::Move1) && oriented_step(s1, *tour, ix(t1), ix(f3), ix(t1), ix(f3), ix(t3), ix(t4)));
                assert(opt4_steps(t0, *tour, ix(f1), ix(t1), ix(f2), ix(t2), ix(f3), ix(t3), ix(f4), ix(t4), Opt4SeqMove::Move10));
            }
        },
        Opt4SeqMove::Move11 => {
            move_4_opt(tour, pair_1, pair_2, pair_3, pair_4, Opt4SeqMove::Move7);
            let ghost s1 = *tour;
            proof {
                assert(d + rc + a + rb =~= d + (rc + a) + rb);
            }
            flip_oriented(
                tour,
                f1,
                f4,
                f1,
                f4,
                f2,
                f3,
                Ghost(d),
                Ghost((rc + a)),
                Ghost(rb),
                Ghost(d.len() - 1),
            );
            proof {
                lemma_reversed_add(rc, a);
                assert(d + reversed((rc + a)) + rb =~= d + ra + c + rb);
            }
            proof {
                assert(opt4_base_steps(t0, s1, ix(f1), ix(t1), ix(f2), ix(t2), ix(f3), ix(t3), ix(f4), ix(t4), Opt4SeqMove::Move7) && oriented_step(s1, *tour, ix(f1), ix(f4), ix(f1), ix(f4), ix(f2), ix(f3)));
                assert(opt4_steps(t0, *tour, ix(f1), ix(t1), ix(f2), ix(t2), ix(f3), ix(t3), ix(f4), ix(t4), Opt4SeqMove::Move11));
            }
        },
        Opt4SeqMove::Move15 => {
            move_4_opt(tour, pair_1, pair_2, pair_3, pair_4, Opt4SeqMove::Move12);
            let ghost s1 = *tour;
            proof {
                assert(d + ra + rc + b =~= d + (ra + rc + b) + Seq::<usize>::empty());
            }
            flip_oriented(
                tour,
                f1,
                f2,
                f1,
                f2,
                f3,
                t4,
                Ghost(d),
                Ghost((ra + rc + b)),
                Ghost(Seq::<usize>::empty()),
                Ghost(d.len() - 1),
            );
            proof {
                lemma_reversed_add(ra + rc, b);
                lemma_reversed_add(ra, rc);
                assert(d + reversed((ra + rc + b)) + Seq::<usize>::empty() =~= d + rb + c + a);
            }
            proof {
                assert(opt4_base_steps(t0, s1, ix(f1), ix(t1), ix(f2), ix(t2), ix(f3), ix(t3), ix(f4), ix(t4), Opt4SeqMove::Move12) && oriented_step(s1, *tour, ix(f1), ix(f2), ix(f1), ix(f2), ix(f3), ix(t4)));
                assert(opt4_steps(t0, *tour, ix(f1), ix(t1), ix(f2), ix(t2), ix(f3), ix(t3), ix(f4), ix(t4), Opt4SeqMove::Move15));
            }
        },
        Opt4SeqMove::Move1 | Opt4SeqMove::Move2 | Opt4SeqMove::Move3 | Opt4SeqMove::Move4 | Opt4SeqMove::Move7
        | Opt4SeqMove::Move8 | Opt4SeqMove::Move9 => {
            move_4_opt_a(tour, pair_1, pair_2, pair_3, pair_4, move_case);
        },
        _ => {
            move_4_opt_b(tour, pair_1, pair_2, pair_3, pair_4, move_case);
        },
    }
    proof {
        tour.lemma_valid();
        lemma_same_len(tour.tour_view(), opt4_cycle(a, b, c, d, move_case));
        assert(opt4_cycle(a, b, c, d, move_case).len() == a.len() + b.len() + c.len() + d.len());
    }
}

/// Block `i` of the four blocks `a b c d` of a 4-opt move (`d` for 3).
pub open spec fn block4(a: Seq<usize>, b: Seq<usize>, c: Seq<usize>, d: Seq<usize>, i: int) -> Seq<usize> {
    if i == 0 {
        a
    } else if i == 1 {
        b
    } else if i == 2 {
        c
    } else {
        d
    }
}

/// A block, read backwards when `r` holds.
pub open spec fn oriented(s: Seq<usize>, r: bool) -> Seq<usize> {
    if r {
        reversed(s)
    } else {
        s
    }
}

/// The blocks that follow `d` in the cycle that a 4-opt move makes, each as
/// (block, read backwards).
pub open spec fn plan4(m: Opt4SeqMove) -> (int, bool, int, bool, int, bool) {
    match m {
        Opt4SeqMove::Move1 => (0, true, 1, true, 2, true),
        Opt4SeqMove::Move2 => (1, false, 0, false, 2, true),
        Opt4SeqMove::Move3 => (1, false, 0, true, 2, true),
        Opt4SeqMove::Move4 => (1, true, 0, false, 2, true),
        Opt4SeqMove::Move5 => (2, false, 0, false, 1, true),
        Opt4SeqMove::Move6 => (2, false, 0, true, 1, false),
        Opt4SeqMove::Move7 => (2, true, 0, false, 1, true),
        Opt4SeqMove::Move8 => (2, true, 0, true, 1, false),
        Opt4SeqMove::Move9 => (2, true, 0, true, 1, true),
        Opt4SeqMove::Move10 => (0, true, 2, false, 1, false),
        Opt4SeqMove::Move11 => (0, true, 2, false, 1, true),
        Opt4SeqMove::Move12 => (0, true, 2, true, 1, false),
        Opt4SeqMove::Move13 => (1, false, 2, true, 0, false),
        Opt4SeqMove::Move14 => (1, false, 2, true, 0, true),
        Opt4SeqMove::Move15 => (1, true, 2, false, 0, false),
        Opt4SeqMove::Move16 => (1, true, 2, false, 0, true),
        Opt4SeqMove::Move17 => (1, true, 2, true, 0, true),
        Opt4SeqMove::Move18 => (2, false, 1, false, 0, true),
        Opt4SeqMove::Move19 => (2, false, 1, true, 0, false),
        Opt4SeqMove::Move20 => (2, true, 1, false, 0, false),
    }
}

/// The cycle of a 4-opt move is `d` followed by the other three blocks,
/// each once, in the order and direction that `plan4` gives.
proof fn lemma_plan4(a: Seq<usize>, b: Seq<usize>, c: Seq<usize>, d: Seq<usize>, m: Opt4SeqMove)
    ensures
        ({
            let p = plan4(m);
            &&& opt4_cycle(a, b, c, d, m) == d + oriented(block4(a, b, c, d, p.0), p.1) + oriented(
                block4(a, b, c, d, p.2),
                p.3,
            ) + oriented(block4(a, b, c, d, p.4), p.5)
            &&& 0 <= p.0 < 3 && 0 <= p.2 < 3 && 0 <= p.4 < 3
            &&& p.0 != p.2 && p.0 != p.4 && p.2 != p.4
        }),
{
}

/// In `x + y + z`, where `y` is `beta` read forward or backward, two places
/// next to each other hold the nodes `i` and `i + 1` of `beta`; the first
/// of them is returned.
proof fn lemma_block_link(x: Seq<usize>, y: Seq<usize>, z: Seq<usize>, beta: Seq<usize>, r: bool, i: int) -> (j: int)
    requires
        y == oriented(beta, r),
        0 <= i < beta.len() - 1,
    ensures
        0 <= j,
        j + 1 < (x + y + z).len(),
        !r ==> (x + y + z)[j] == beta[i] && (x + y + z)[j + 1] == beta[i + 1],
        r ==> (x + y + z)[j] == beta[i + 1] && (x + y + z)[j + 1] == beta[i],
{
    let w = x + y + z;
    let l = beta.len() as int;
    if r {
        let j = x.len() + l - 2 - i;
        assert(w[j] == y[l - 2 - i]);
        assert(w[j + 1] == y[l - 1 - i]);
        j
    } else {
        let j = x.len() + i;
        assert(w[j] == y[i]);
        assert(w[j + 1] == y[i + 1]);
        j
    }
}

/// A 4-opt move keeps every arc that runs inside one of the four paths
/// between its removed arcs: on a tour `s2` that is the cycle of blocks
/// that the move makes, walked one way or the other, two nodes that follow
/// each other in a block are still neighbours. The blocks of `move_4_opt`
/// are the paths `t1 .. f2`, `t2 .. f3`, `t3 .. f4` and `t4 .. f1` of the
/// tour before the move, whose consecutive nodes are its arcs, so every arc
/// of that tour but the four removed ones stays.
pub proof fn law_opt4_keeps_block_arcs(
    s2: Seq<usize>,
    a: Seq<usize>,
    b: Seq<usize>,
    c: Seq<usize>,
    d: Seq<usize>,
    m: Opt4SeqMove,
    blk: int,
    i: int,
)
    requires
        is_tour(s2),
        same_cycle(s2, opt4_cycle(a, b, c, d, m)),
        0 <= blk < 4,
        0 <= i < block4(a, b, c, d, blk).len() - 1,
    ensures
        ({
            let beta = block4(a, b, c, d, blk);
            next_in(s2, beta[i]) == beta[i + 1] || next_in(s2, beta[i + 1]) == beta[i]
        }),
{
    lemma_plan4(a, b, c, d, m);
    let w = opt4_cycle(a, b, c, d, m);
    let p = plan4(m);
    let beta = block4(a, b, c, d, blk);
    let p0 = oriented(block4(a, b, c, d, p.0), p.1);
    let p1 = oriented(block4(a, b, c, d, p.2), p.3);
    let p2 = oriented(block4(a, b, c, d, p.4), p.5);
    let (x, y, z, r) = if blk == 3 {
        (Seq::<usize>::empty(), d, p0 + p1 + p2, false)
    } else if blk == p.0 {
        (d, p0, p1 + p2, p.1)
    } else if blk == p.2 {
        (d + p0, p1, p2, p.3)
    } else {
        (d + p0 + p1, p2, Seq::<usize>::empty(), p.5)
    };
    assert(w =~= x + y + z);
    let j = lemma_block_link(x, y, z, beta, r, i);
    let n = s2.len() as int;
    if cyc_eq(s2, w) {
        let k = choose|k: int| 0 <= k < s2.len() && #[trigger] rotate_from(s2, k) == w;
        assert(w.len() == n);
        lemma_arcs_fwd(s2, w, j);
    } else {
        let k = choose|k: int| 0 <= k < s2.len() && #[trigger] rotate_from(s2, k) == reversed(w);
        assert(rotate_from(s2, k).len() == n);
        assert(reversed(w).len() == w.len());
        assert(w.len() == n);
        lemma_arcs_rev(s2, w, j);
    }
}

/// Two nodes are neighbours on the tour `s`, in one direction or the other.
pub open spec fn joined(s: Seq<usize>, u: usize, v: usize) -> bool {
    next_in(s, u) == v || next_in(s, v) == u
}

/// The four arcs that a 4-opt move puts in: on a tour `s2` that is the
/// cycle of blocks that the move makes, walked one way or the other, the
/// end of each block is joined to the start of the block that follows it,
/// in the order and direction that `plan4` gives after `d`. Each of these
/// arcs joins two of the eight nodes at the ends of the removed arcs.
pub proof fn law_opt4_new_arcs(
    s2: Seq<usize>,
    a: Seq<usize>,
    b: Seq<usize>,
    c: Seq<usize>,
    d: Seq<usize>,
    m: Opt4SeqMove,
)
    requires
        is_tour(s2),
        same_cycle(s2, opt4_cycle(a, b, c, d, m)),
        a.len() > 0,
        b.len() > 0,
        c.len() > 0,
        d.len() > 0,
    ensures
        ({
            let p = plan4(m);
            let p0 = oriented(block4(a, b, c, d, p.0), p.1);
            let p1 = oriented(block4(a, b, c, d, p.2), p.3);
            let p2 = oriented(block4(a, b, c, d, p.4), p.5);
            &&& joined(s2, d.last(), p0[0])
            &&& joined(s2, p0.last(), p1[0])
            &&& joined(s2, p1.last(), p2[0])
            &&& joined(s2, p2.last(), d[0])
        }),
{
    lemma_plan4(a, b, c, d, m);
    let w = opt4_cycle(a, b, c, d, m);
    let p = plan4(m);
    let p0 = oriented(block4(a, b, c, d, p.0), p.1);
    let p1 = oriented(block4(a, b, c, d, p.2), p.3);
    let p2 = oriented(block4(a, b, c, d, p.4), p.5);
    let n = s2.len() as int;
    let l0 = d.len() as int;
    let l1 = l0 + p0.len();
    let l2 = l1 + p1.len();
    assert(p0.len() > 0 && p1.len() > 0 && p2.len() > 0);
    assert(w[l0 - 1] == d.last());
    assert(w[l0] == p0[0]);
    assert(w[l1 - 1] == p0.last());
    assert(w[l1] == p1[0]);
    assert(w[l2 - 1] == p1.last());
    assert(w[l2] == p2[0]);
    assert(w[w.len() - 1] == p2.last());
    assert(w[0] == d[0]);
    if cyc_eq(s2, w) {
        let k = choose|k: int| 0 <= k < s2.len() && #[trigger] rotate_from(s2, k) == w;
        assert(w.len() == n);
        lemma_arcs_fwd(s2, w, l0 - 1);
        lemma_arcs_fwd(s2, w, l1 - 1);
        lemma_arcs_fwd(s2, w, l2 - 1);
        lemma_arcs_fwd(s2, w, n - 1);
    } else {
        let k = choose|k: int| 0 <= k < s2.len() && #[trigger] rotate_from(s2, k) == reversed(w);
        assert(rotate_from(s2, k).len() == n);
        assert(reversed(w).len() == w.len());
        assert(w.len() == n);
        lemma_arcs_rev(s2, w, l0 - 1);
        lemma_arcs_rev(s2, w, l1 - 1);
        lemma_arcs_rev(s2, w, l2 - 1);
        lemma_arcs_rev(s2, w, n - 1);
    }
}

/// Where the cycle of a 4-opt move holds the first (`first`) or the last
/// node of block `blk`.
pub open spec fn place4(
    a: Seq<usize>,
    b: Seq<usize>,
    c: Seq<usize>,
    d: Seq<usize>,
    m: Opt4SeqMove,
    blk: int,
    first: bool,
) -> int {
    let p = plan4(m);
    let l0 = d.len() as int;
    let l1 = l0 + block4(a, b, c, d, p.0).len();
    let l2 = l1 + block4(a, b, c, d, p.2).len();
    let (off, r) = if blk == 3 {
        (0int, false)
    } else if blk == p.0 {
        (l0, p.1)
    } else if blk == p.2 {
        (l1, p.3)
    } else {
        (l2, p.5)
    };
    if first == r {
        off + block4(a, b, c, d, blk).len() - 1
    } else {
        off
    }
}

/// The cycle of a 4-opt move holds the ends of each block where `place4`
/// says.
proof fn lemma_place4(a: Seq<usize>, b: Seq<usize>, c: Seq<usize>, d: Seq<usize>, m: Opt4SeqMove, blk: int, first: bool)
    requires
        0 <= blk < 4,
        block4(a, b, c, d, blk).len() > 0,
    ensures
        0 <= place4(a, b, c, d, m, blk, first) < opt4_cycle(a, b, c, d, m).len(),
        opt4_cycle(a, b, c, d, m)[place4(a, b, c, d, m, blk, first)] == if first {
            block4(a, b, c, d, blk)[0]
        } else {
            block4(a, b, c, d, blk).last()
        },
{
    lemma_plan4(a, b, c, d, m);
    let w = opt4_cycle(a, b, c, d, m);
    let p = plan4(m);
    let beta = block4(a, b, c, d, blk);
    let p0 = oriented(block4(a, b, c, d, p.0), p.1);
    let p1 = oriented(block4(a, b, c, d, p.2), p.3);
    let p2 = oriented(block4(a, b, c, d, p.4), p.5);
    let (x, y, z) = if blk == 3 {
        (Seq::<usize>::empty(), d, p0 + p1 + p2)
    } else if blk == p.0 {
        (d, p0, p1 + p2)
    } else if blk == p.2 {
        (d + p0, p1, p2)
    } else {
        (d + p0 + p1, p2, Seq::<usize>::empty())
    };
    assert(w =~= x + y + z);
    let k = place4(a, b, c, d, m, blk, first) - x.len();
    assert(0 <= k < y.len());
    assert(w[x.len() + k] == y[k]);
}

/// On a tour `s2` that is the cycle `w`, walked one way or the other, two
/// neighbours stand next to each other in `w`.
#[verifier::spinoff_prover]
#[verifier::rlimit(100)]
proof fn lemma_joined_in_cycle(s2: Seq<usize>, w: Seq<usize>, u: usize, v: usize) -> (j: int)
    requires
        is_tour(s2),
        same_cycle(s2, w),
        u < s2.len(),
        v < s2.len(),
        joined(s2, u, v),
    ensures
        0 <= j < w.len(),
        w.len() == s2.len(),
        (w[j] == u && w[wrap(j + 1, w.len() as int)] == v) || (w[j] == v && w[wrap(j + 1, w.len() as int)] == u),
        forall|i: int, k: int| 0 <= i < w.len() && 0 <= k < w.len() && i != k ==> w[i] != w[k],
{
    let n = s2.len() as int;
    lemma_pos_in_tour(s2, u);
    lemma_pos_in_tour(s2, v);
    if cyc_eq(s2, w) {
        let c = choose|c: int| 0 <= c < s2.len() && #[trigger] rotate_from(s2, c) == w;
        lemma_cyc_index(s2, c);
        let iu = wrap(pos_of(s2, u) - c, n);
        let iv = wrap(pos_of(s2, v) - c, n);
        assert(w[iu] == u);
        assert(w[iv] == v);
        if next_in(s2, u) == v {
            iu
        } else {
            iv
        }
    } else {
        let c = choose|c: int| 0 <= c < s2.len() && #[trigger] rotate_from(s2, c) == reversed(w);
        let r = reversed(w);
        lemma_cyc_index(s2, c);
        assert(r.len() == n);
        assert(w.len() == n);
        let iu = wrap(pos_of(s2, u) - c, n);
        let iv = wrap(pos_of(s2, v) - c, n);
        assert(r[iu] == u);
        assert(r[iv] == v);
        assert forall|i: int, k: int| 0 <= i < w.len() && 0 <= k < w.len() && i != k implies w[i] != w[k] by {
            assert(w[i] == r[n - 1 - i]);
            assert(w[k] == r[n - 1 - k]);
        }
        if next_in(s2, u) == v {
            let i1 = wrap(iu + 1, n);
            assert(r[i1] == v);
            let j = n - 1 - i1;
            assert(w[j] == v);
            assert(w[wrap(j + 1, n)] == r[iu]);
            j
        } else {
            let i1 = wrap(iv + 1, n);
            assert(r[i1] == u);
            let j = n - 1 - i1;
            assert(w[j] == u);
            assert(w[wrap(j + 1, n)] == r[iv]);
            j
        }
    }
}

/// A 4-opt move takes out the four arcs it is made on: on a tour `s2`
/// that is the cycle of blocks that the move makes, walked one way or the
/// other, the end of each block and the start of the block that followed
/// it before the move are no longer neighbours. The blocks of `move_4_opt`
/// have two nodes or more when its eight nodes are distinct.
pub proof fn law_opt4_removes_arcs(
    s2: Seq<usize>,
    a: Seq<usize>,
    b: Seq<usize>,
    c: Seq<usize>,
    d: Seq<usize>,
    m: Opt4SeqMove,
)
    requires
        is_tour(s2),
        same_cycle(s2, opt4_cycle(a, b, c, d, m)),
        a.len() >= 2,
        b.len() >= 2,
        c.len() >= 2,
        d.len() >= 2,
    ensures
        !joined(s2, d.last(), a[0]),
        !joined(s2, a.last(), b[0]),
        !joined(s2, b.last(), c[0]),
        !joined(s2, c.last(), d[0]),
{
    lemma_plan4(a, b, c, d, m);
    let w = opt4_cycle(a, b, c, d, m);
    lemma_same_len(s2, w);
    lemma_removed(s2, a, b, c, d, m, 3, 0);
    lemma_removed(s2, a, b, c, d, m, 0, 1);
    lemma_removed(s2, a, b, c, d, m, 1, 2);
    lemma_removed(s2, a, b, c, d, m, 2, 3);
}

/// The end of block `x` and the start of block `y`, which followed it
/// before the move, are not neighbours after it.
proof fn lemma_removed(
    s2: Seq<usize>,
    a: Seq<usize>,
    b: Seq<usize>,
    c: Seq<usize>,
    d: Seq<usize>,
    m: Opt4SeqMove,
    x: int,
    y: int,
)
    requires
        is_tour(s2),
        same_cycle(s2, opt4_cycle(a, b, c, d, m)),
        a.len() >= 2,
        b.len() >= 2,
        c.len() >= 2,
        d.len() >= 2,
        0 <= x < 4,
        y == (x + 1) % 4,
    ensures
        !joined(s2, block4(a, b, c, d, x).last(), block4(a, b, c, d, y)[0]),
{
    let w = opt4_cycle(a, b, c, d, m);
    let u = block4(a, b, c, d, x).last();
    let v = block4(a, b, c, d, y)[0];
    lemma_plan4(a, b, c, d, m);
    lemma_place4(a, b, c, d, m, x, false);
    lemma_place4(a, b, c, d, m, y, true);
    let pu = place4(a, b, c, d, m, x, false);
    let pv = place4(a, b, c, d, m, y, true);
    lemma_same_len(s2, w);
    if joined(s2, u, v) {
        lemma_cyc_members(s2, w, pu);
        lemma_cyc_members(s2, w, pv);
        let j = lemma_joined_in_cycle(s2, w, u, v);
        let n = w.len() as int;
        lemma_opt4_len(a, b, c, d, m);
        if w[j] == u {
            assert(j == pu);
            assert(wrap(j + 1, n) == pv);
        } else {
            assert(j == pv);
            assert(wrap(j + 1, n) == pu);
        }
        lemma_plan4_distinct_ends(a, b, c, d, m, x, y);
        assert(false);
    }
}

/// The cycle of a 4-opt move holds the nodes of its four blocks.
proof fn lemma_opt4_len(a: Seq<usize>, b: Seq<usize>, c: Seq<usize>, d: Seq<usize>, m: Opt4SeqMove)
    ensures
        opt4_cycle(a, b, c, d, m).len() == a.len() + b.len() + c.len() + d.len(),
{
    lemma_plan4(a, b, c, d, m);
}

/// A place of a cycle that a tour walks holds a node of the tour.
proof fn lemma_cyc_members(s2: Seq<usize>, w: Seq<usize>, i: int)
    requires
        is_tour(s2),
        same_cycle(s2, w),
        0 <= i < w.len(),
    ensures
        w[i] < s2.len(),
{
    let n = s2.len() as int;
    if cyc_eq(s2, w) {
        let c = choose|c: int| 0 <= c < s2.len() && #[trigger] rotate_from(s2, c) == w;
        lemma_cyc_index(s2, c);
    } else {
        let c = choose|c: int| 0 <= c < s2.len() && #[trigger] rotate_from(s2, c) == reversed(w);
        lemma_cyc_index(s2, c);
        assert(reversed(w).len() == n);
        assert(w[i] == reversed(w)[n - 1 - i]);
    }
}

/// In the cycle of any 4-opt move on blocks of two nodes or more, the end
/// of a block and the start of the block that followed it before do not
/// stand next to each other.
#[verifier::spinoff_prover]
#[verifier::rlimit(100)]
proof fn lemma_plan4_distinct_ends(
    a: Seq<usize>,
    b: Seq<usize>,
    c: Seq<usize>,
    d: Seq<usize>,
    m: Opt4SeqMove,
    x: int,
    y: int,
)
    requires
        a.len() >= 2,
        b.len() >= 2,
        c.len() >= 2,
        d.len() >= 2,
        0 <= x < 4,
        y == (x + 1) % 4,
    ensures
        ({
            let n = (a.len() + b.len() + c.len() + d.len()) as int;
            let pu = place4(a, b, c, d, m, x, false);
            let pv = place4(a, b, c, d, m, y, true);
            &&& pv != wrap(pu + 1, n)
            &&& pu != wrap(pv + 1, n)
        }),
{
    match m {
        Opt4SeqMove::Move1 => {},
        Opt4SeqMove::Move2 => {},
        Opt4SeqMove::Move3 => {},
        Opt4SeqMove::Move4 => {},
        Opt4SeqMove::Move5 => {},
        Opt4SeqMove::Move6 => {},
        Opt4SeqMove::Move7 => {},
        Opt4SeqMove::Move8 => {},
        Opt4SeqMove::Move9 => {},
        Opt4SeqMove::Move10 => {},
        Opt4SeqMove::Move11 => {},
        Opt4SeqMove::Move12 => {},
        Opt4SeqMove::Move13 => {},
        Opt4SeqMove::Move14 => {},
        Opt4SeqMove::Move15 => {},
        Opt4SeqMove::Move16 => {},
        Opt4SeqMove::Move17 => {},
        Opt4SeqMove::Move18 => {},
        Opt4SeqMove::Move19 => {},
        Opt4SeqMove::Move20 => {},
    }
}

} // verus!
