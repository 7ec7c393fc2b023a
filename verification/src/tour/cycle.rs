//! The mathematical model of a tour: a sequence holding every node exactly
//! once, read cyclically (the last node is followed by the first).
use vstd::prelude::*;

verus! {

/// Brings `x`, known to lie in `[-n, 2n)`, back into `[0, n)`.
pub open spec fn wrap(x: int, n: int) -> int {
    if x >= n {
        x - n
    } else if x < 0 {
        x + n
    } else {
        x
    }
}

/// `s` lists `n` nodes, each below `n`, none twice.
pub open spec fn is_perm(s: Seq<usize>, n: nat) -> bool {
    &&& s.len() == n
    &&& forall|i: int| 0 <= i < n ==> #[trigger] s[i] < n
    &&& s.no_duplicates()
}

/// `s` is a tour over the nodes `0..s.len()`: every node occurs exactly once.
pub open spec fn is_tour(s: Seq<usize>) -> bool {
    &&& is_perm(s, s.len())
    &&& forall|v: usize| v < s.len() ==> #[trigger] s.contains(v)
}

/// The position of node `v` in the sequence `s`.
pub open spec fn pos_of(s: Seq<usize>, v: usize) -> int {
    choose|i: int| 0 <= i < s.len() && s[i] == v
}

/// The node that directly follows `v` on the tour `s`.
pub open spec fn next_in(s: Seq<usize>, v: usize) -> usize {
    s[wrap(pos_of(s, v) + 1, s.len() as int)]
}

/// The node that directly precedes `v` on the tour `s`.
pub open spec fn prev_in(s: Seq<usize>, v: usize) -> usize {
    s[wrap(pos_of(s, v) - 1, s.len() as int)]
}

/// Walking forward on `s` from node `from`, node `mid` is reached no later
/// than node `to`.
pub open spec fn between_in(s: Seq<usize>, from: usize, mid: usize, to: usize) -> bool {
    crate::tour::between_spec(pos_of(s, from), pos_of(s, mid), pos_of(s, to))
}

/// The tour `s` read from position `c` on, wrapping around.
pub open spec fn rotate_from(s: Seq<usize>, c: int) -> Seq<usize> {
    Seq::new(s.len(), |k: int| s[wrap(c + k, s.len() as int)])
}

/// `s` read backwards.
pub open spec fn reversed(s: Seq<usize>) -> Seq<usize> {
    Seq::new(s.len(), |i: int| s[s.len() - 1 - i])
}

/// `s` with the cyclic block of `len` positions that starts at `start`
/// written in reverse order; the other positions keep their nodes.
pub open spec fn rev_block(s: Seq<usize>, start: int, len: int) -> Seq<usize> {
    Seq::new(
        s.len(),
        |p: int|
            {
                let n = s.len() as int;
                let d = wrap(p - start, n);
                if d < len {
                    s[wrap(start + len - 1 - d, n)]
                } else {
                    s[p]
                }
            },
    )
}

/// The number of nodes on the forward walk from `a` to `b`, both included.
pub open spec fn path_len(s: Seq<usize>, a: usize, b: usize) -> int {
    wrap(pos_of(s, b) - pos_of(s, a), s.len() as int) + 1
}

/// `s` with the forward path from node `a` to node `b` reversed.
pub open spec fn rev_path(s: Seq<usize>, a: usize, b: usize) -> Seq<usize> {
    rev_block(s, pos_of(s, a), path_len(s, a, b))
}

/// The arcs `(fa, ta)` and `(fb, tb)` are two distinct arcs of the tour `s`.
pub open spec fn two_arcs(s: Seq<usize>, fa: usize, ta: usize, fb: usize, tb: usize) -> bool {
    &&& fa < s.len()
    &&& fb < s.len()
    &&& fa != fb
    &&& ta == next_in(s, fa)
    &&& tb == next_in(s, fb)
}

/// `r` is the tour `s` after the 2-opt move that replaces the arcs
/// `(fa, ta)` and `(fb, tb)` by `(fa, fb)` and `(ta, tb)`: one of the two
/// paths between the removed arcs is reversed, either `ta .. fb` or
/// `tb .. fa`, which give the same cycle in opposite directions.
pub open spec fn flipped(s: Seq<usize>, r: Seq<usize>, fa: usize, ta: usize, fb: usize, tb: usize) -> bool {
    r == rev_path(s, ta, fb) || r == rev_path(s, tb, fa)
}

/// The tour `s` after the 2-opt move that replaces the arcs `(fa, ta)` and
/// `(fb, tb)` by `(fa, fb)` and `(ta, tb)`, reversing the path `ta .. fb`
/// when `turns` holds and the path `tb .. fa` otherwise.
pub open spec fn flip_result(s: Seq<usize>, turns: bool, fa: usize, ta: usize, fb: usize, tb: usize) -> Seq<usize> {
    if turns {
        rev_path(s, ta, fb)
    } else {
        rev_path(s, tb, fa)
    }
}

/// The position of a node in a sequence without duplicates is the one it occupies.
pub proof fn lemma_pos_of(s: Seq<usize>, i: int)
    requires
        s.no_duplicates(),
        0 <= i < s.len(),
    ensures
        pos_of(s, s[i]) == i,
{
    assert(0 <= i < s.len() && s[i] == s[i]);
    let j = pos_of(s, s[i]);
    assert(0 <= j < s.len() && s[j] == s[i]);
}

/// Every node of a tour has a position, and that position holds it.
pub proof fn lemma_pos_in_tour(s: Seq<usize>, v: usize)
    requires
        is_tour(s),
        v < s.len(),
    ensures
        0 <= pos_of(s, v) < s.len(),
        s[pos_of(s, v)] == v,
{
    assert(s.contains(v));
}

/// A cyclic block reversal only moves nodes around: a tour stays a tour.
pub proof fn lemma_rev_block_tour(s: Seq<usize>, start: int, len: int)
    requires
        is_tour(s),
        0 <= start < s.len(),
        0 <= len <= s.len(),
    ensures
        is_tour(rev_block(s, start, len)),
        rev_block(s, start, len).len() == s.len(),
{
    let n = s.len() as int;
    let r = rev_block(s, start, len);
    // The block reversal is the permutation of positions `m` below, which is its own inverse.
    assert forall|p: int| 0 <= p < n implies 0 <= #[trigger] mirror(p, start, len, n) < n
        && r[p] == s[mirror(p, start, len, n)] && mirror(mirror(p, start, len, n), start, len, n) == p by {
    }
    assert forall|i: int| 0 <= i < n implies #[trigger] r[i] < n by {
        assert(r[i] == s[mirror(i, start, len, n)]);
    }
    assert forall|i: int, j: int| 0 <= i < n && 0 <= j < n && i != j implies r[i] != r[j] by {
        assert(r[i] == s[mirror(i, start, len, n)]);
        assert(r[j] == s[mirror(j, start, len, n)]);
        assert(mirror(mirror(i, start, len, n), start, len, n) == i);
        assert(mirror(mirror(j, start, len, n), start, len, n) == j);
    }
    assert forall|v: usize| v < n implies #[trigger] r.contains(v) by {
        assert(s.contains(v));
        let i = choose|i: int| 0 <= i < n && s[i] == v;
        let q = mirror(i, start, len, n);
        assert(r[q] == s[mirror(q, start, len, n)]);
        assert(r[q] == v);
    }
}

/// The position from which a block reversal takes the node for position `p`.
pub open spec fn mirror(p: int, start: int, len: int, n: int) -> int {
    let d = wrap(p - start, n);
    if d < len {
        wrap(start + len - 1 - d, n)
    } else {
        p
    }
}

/// Reading a tour backwards keeps it a tour.
pub proof fn lemma_reversed_tour(s: Seq<usize>)
    requires
        is_tour(s),
    ensures
        is_tour(reversed(s)),
{
    let n = s.len() as int;
    let r = reversed(s);
    assert forall|i: int| 0 <= i < n implies #[trigger] r[i] < n by {
        assert(r[i] == s[n - 1 - i]);
    }
    assert forall|i: int, j: int| 0 <= i < n && 0 <= j < n && i != j implies r[i] != r[j] by {
        assert(r[i] == s[n - 1 - i]);
        assert(r[j] == s[n - 1 - j]);
    }
    assert forall|v: usize| v < n implies #[trigger] r.contains(v) by {
        assert(s.contains(v));
        let i = choose|i: int| 0 <= i < n && s[i] == v;
        assert(r[n - 1 - i] == s[i]);
    }
}

/// A block reversal seen on the sequence read backwards is the mirrored
/// block reversal.
pub proof fn lemma_reversed_rev_block(s: Seq<usize>, start: int, len: int)
    requires
        0 <= start < s.len(),
        1 <= len <= s.len(),
    ensures
        reversed(rev_block(s, start, len)) == rev_block(
            reversed(s),
            wrap(s.len() - start - len, s.len() as int),
            len,
        ),
{
    let n = s.len() as int;
    let a = reversed(rev_block(s, start, len));
    let b = rev_block(reversed(s), wrap(n - start - len, n), len);
    assert forall|q: int| 0 <= q < n implies a[q] == b[q] by {
        let p = n - 1 - q;
        assert(a[q] == rev_block(s, start, len)[p]);
    }
    assert(a =~= b);
}

/// Positions on a tour read backwards are mirrored.
pub proof fn lemma_pos_reversed(s: Seq<usize>, v: usize)
    requires
        is_tour(s),
        v < s.len(),
    ensures
        pos_of(reversed(s), v) == s.len() - 1 - pos_of(s, v),
{
    lemma_pos_in_tour(s, v);
    lemma_reversed_tour(s);
    let i = s.len() - 1 - pos_of(s, v);
    assert(reversed(s)[i] == v);
    lemma_pos_of(reversed(s), i);
}

/// The successor of a node on the backwards tour is its predecessor, and
/// the other way round.
pub proof fn lemma_next_reversed(s: Seq<usize>, v: usize)
    requires
        is_tour(s),
        v < s.len(),
    ensures
        next_in(reversed(s), v) == prev_in(s, v),
        prev_in(reversed(s), v) == next_in(s, v),
{
    lemma_pos_reversed(s, v);
    lemma_pos_in_tour(s, v);
}

/// Successor and predecessor undo each other.
pub proof fn lemma_next_prev(s: Seq<usize>, v: usize)
    requires
        is_tour(s),
        v < s.len(),
    ensures
        next_in(s, v) < s.len(),
        prev_in(s, v) < s.len(),
        prev_in(s, next_in(s, v)) == v,
        next_in(s, prev_in(s, v)) == v,
        pos_of(s, next_in(s, v)) == wrap(pos_of(s, v) + 1, s.len() as int),
        pos_of(s, prev_in(s, v)) == wrap(pos_of(s, v) - 1, s.len() as int),
{
    let n = s.len() as int;
    lemma_pos_in_tour(s, v);
    let i = pos_of(s, v);
    lemma_pos_of(s, wrap(i + 1, n));
    lemma_pos_of(s, wrap(i - 1, n));
}

/// Reversing a path, seen on the backwards tour, reverses the same path
/// walked the other way.
pub proof fn lemma_reversed_rev_path(s: Seq<usize>, a: usize, b: usize)
    requires
        is_tour(s),
        a < s.len(),
        b < s.len(),
    ensures
        reversed(rev_path(s, a, b)) == rev_path(reversed(s), b, a),
{
    let n = s.len() as int;
    lemma_pos_reversed(s, a);
    lemma_pos_reversed(s, b);
    lemma_pos_in_tour(s, a);
    lemma_pos_in_tour(s, b);
    lemma_reversed_rev_block(s, pos_of(s, a), path_len(s, a, b));
}

/// The two blocks that a flip of the arcs `(p, q)` and `(r, u)` may reverse,
/// written with the positions of `p` and `r` when `p` comes first.
pub proof fn lemma_flip_blocks(s: Seq<usize>, p: usize, q: usize, r: usize, u: usize)
    requires
        is_tour(s),
        two_arcs(s, p, q, r, u),
        pos_of(s, p) < pos_of(s, r),
    ensures
        rev_block(s, pos_of(s, p) + 1, pos_of(s, r) - pos_of(s, p)) == rev_path(s, q, r),
        rev_block(s, wrap(pos_of(s, r) + 1, s.len() as int), s.len() - (pos_of(s, r) - pos_of(s, p)))
            == rev_path(s, u, p),
{
    let n = s.len() as int;
    lemma_next_prev(s, p);
    lemma_next_prev(s, r);
    lemma_pos_in_tour(s, p);
    lemma_pos_in_tour(s, r);
}

/// A sequence of `n` distinct nodes below `n` holds every node below `n`.
pub proof fn lemma_perm_is_tour(s: Seq<usize>, n: nat)
    requires
        is_perm(s, n),
        n <= usize::MAX,
    ensures
        is_tour(s),
    decreases n,
{
    if n > 0 {
        let top = (n - 1) as usize;
        if s.contains(top) {
            let j = choose|j: int| 0 <= j < s.len() && s[j] == top;
            let t = s.remove(j);
            assert forall|i: int| 0 <= i < n - 1 implies #[trigger] t[i] < n - 1 by {
                if i < j {
                    assert(t[i] == s[i]);
                } else {
                    assert(t[i] == s[i + 1]);
                }
            }
            assert(is_perm(t, (n - 1) as nat));
            lemma_perm_is_tour(t, (n - 1) as nat);
            assert forall|v: usize| v < n implies #[trigger] s.contains(v) by {
                if v == top {
                    assert(s[j] == v);
                } else {
                    assert(v < t.len());
                    assert(t.contains(v));
                    let i = choose|i: int| 0 <= i < t.len() && t[i] == v;
                    if i < j {
                        assert(s[i] == v);
                    } else {
                        assert(s[i + 1] == v);
                    }
                }
            }
        } else {
            let t = s.drop_last();
            assert forall|i: int| 0 <= i < n - 1 implies #[trigger] t[i] < n - 1 by {
                assert(t[i] == s[i]);
                assert(s[i] != top);
            }
            assert(is_perm(t, (n - 1) as nat));
            lemma_perm_is_tour(t, (n - 1) as nat);
            let last = s[n - 1];
            assert(last != top);
            assert(t.contains(last));
            let i = choose|i: int| 0 <= i < t.len() && t[i] == last;
            assert(s[i] == s[n - 1]);
            assert(false);
        }
    }
}

/// Cyclic betweenness does not depend on where the cycle is cut.
pub proof fn lemma_between_shift(b: int, x: int, y: int, z: int, n: int)
    requires
        0 <= b < n,
        0 <= x < n,
        0 <= y < n,
        0 <= z < n,
    ensures
        crate::tour::between_spec(wrap(b + x, n), wrap(b + y, n), wrap(b + z, n))
            == crate::tour::between_spec(x, y, z),
{
}

/// Cyclic betweenness on positions read backwards swaps the two ends.
pub proof fn lemma_between_mirror(x: int, y: int, z: int, n: int)
    requires
        0 <= x < n,
        0 <= y < n,
        0 <= z < n,
    ensures
        crate::tour::between_spec(n - 1 - x, n - 1 - y, n - 1 - z) == crate::tour::between_spec(z, y, x),
{
}

/// Reading a tour from another position keeps it a tour, with the same
/// successor and predecessor of every node.
pub proof fn lemma_rotate_tour(s: Seq<usize>, c: int)
    requires
        is_tour(s),
        0 <= c < s.len(),
    ensures
        is_tour(rotate_from(s, c)),
        forall|v: usize| v < s.len() ==> #[trigger] pos_of(rotate_from(s, c), v) == wrap(pos_of(s, v) - c, s.len() as int),
        forall|v: usize| v < s.len() ==> #[trigger] next_in(rotate_from(s, c), v) == next_in(s, v),
        forall|v: usize| v < s.len() ==> #[trigger] prev_in(rotate_from(s, c), v) == prev_in(s, v),
{
    let n = s.len() as int;
    let r = rotate_from(s, c);
    assert forall|i: int| 0 <= i < n implies #[trigger] r[i] < n by {
        assert(r[i] == s[wrap(c + i, n)]);
    }
    assert forall|i: int, j: int| 0 <= i < n && 0 <= j < n && i != j implies r[i] != r[j] by {
        assert(r[i] == s[wrap(c + i, n)]);
        assert(r[j] == s[wrap(c + j, n)]);
    }
    assert forall|v: usize| v < n implies #[trigger] r.contains(v) by {
        lemma_pos_in_tour(s, v);
        let q = wrap(pos_of(s, v) - c, n);
        assert(r[q] == s[pos_of(s, v)]);
    }
    assert forall|v: usize| v < n implies #[trigger] pos_of(r, v) == wrap(pos_of(s, v) - c, n) by {
        lemma_pos_in_tour(s, v);
        let q = wrap(pos_of(s, v) - c, n);
        assert(r[q] == v);
        lemma_pos_of(r, q);
    }
    assert forall|v: usize| v < n implies #[trigger] next_in(r, v) == next_in(s, v) by {
        lemma_pos_in_tour(s, v);
        assert(pos_of(r, v) == wrap(pos_of(s, v) - c, n));
    }
    assert forall|v: usize| v < n implies #[trigger] prev_in(r, v) == prev_in(s, v) by {
        lemma_pos_in_tour(s, v);
        assert(pos_of(r, v) == wrap(pos_of(s, v) - c, n));
    }
}

/// Read from some position on, the tour `s` is `w`.
pub open spec fn cyc_eq(s: Seq<usize>, w: Seq<usize>) -> bool {
    exists|c: int| 0 <= c < s.len() && #[trigger] rotate_from(s, c) == w
}

/// `s` is the cycle `w`, walked in the same or in the opposite direction.
pub open spec fn same_cycle(s: Seq<usize>, w: Seq<usize>) -> bool {
    cyc_eq(s, w) || cyc_eq(s, reversed(w))
}

/// The nodes on the forward walk from `a` to `b`, both included.
pub open spec fn path(s: Seq<usize>, a: usize, b: usize) -> Seq<usize> {
    rotate_from(s, pos_of(s, a)).take(path_len(s, a, b))
}

/// How many steps forward node `v` lies from node `a`.
pub open spec fn offset(s: Seq<usize>, a: usize, v: usize) -> int {
    wrap(pos_of(s, v) - pos_of(s, a), s.len() as int)
}

/// What a tour read from position `c` holds: node `i` of the reading is at
/// position `c + i`, followed by node `i + 1` and preceded by node `i - 1`.
#[verifier::spinoff_prover]
#[verifier::rlimit(30)]
pub proof fn lemma_cyc_index(s: Seq<usize>, c: int)
    requires
        is_tour(s),
        0 <= c < s.len(),
    ensures
        rotate_from(s, c).len() == s.len(),
        forall|i: int|
            0 <= i < s.len() ==> {
                &&& #[trigger] rotate_from(s, c)[i] < s.len()
                &&& pos_of(s, rotate_from(s, c)[i]) == wrap(c + i, s.len() as int)
                &&& next_in(s, rotate_from(s, c)[i]) == rotate_from(s, c)[wrap(i + 1, s.len() as int)]
                &&& prev_in(s, rotate_from(s, c)[i]) == rotate_from(s, c)[wrap(i - 1, s.len() as int)]
            },
        forall|i: int, j: int|
            0 <= i < s.len() && 0 <= j < s.len() && i != j ==> rotate_from(s, c)[i] != rotate_from(s, c)[j],
{
    let n = s.len() as int;
    let w = rotate_from(s, c);
    assert forall|i: int| 0 <= i < n implies {
        &&& #[trigger] w[i] < n
        &&& pos_of(s, w[i]) == wrap(c + i, n)
        &&& next_in(s, w[i]) == w[wrap(i + 1, n)]
        &&& prev_in(s, w[i]) == w[wrap(i - 1, n)]
    } by {
        lemma_pos_of(s, wrap(c + i, n));
    }
    assert forall|i: int, j: int| 0 <= i < n && 0 <= j < n && i != j implies w[i] != w[j] by {
        assert(w[i] == s[wrap(c + i, n)]);
        assert(w[j] == s[wrap(c + j, n)]);
    }
}

/// A cycle read from another block boundary.
#[verifier::spinoff_prover]
#[verifier::rlimit(30)]
pub proof fn lemma_cyc_rot(s: Seq<usize>, p: Seq<usize>, q: Seq<usize>)
    requires
        cyc_eq(s, p + q),
        q.len() > 0,
    ensures
        cyc_eq(s, q + p),
{
    let n = s.len() as int;
    let c = choose|c: int| 0 <= c < s.len() && #[trigger] rotate_from(s, c) == p + q;
    assert(rotate_from(s, c).len() == n);
    let c2 = wrap(c + p.len(), n);
    assert(p.len() < n);
    let r = rotate_from(s, c2);
    assert forall|i: int| 0 <= i < n implies r[i] == (q + p)[i] by {
        if i < q.len() {
            assert((p + q)[p.len() + i] == q[i]);
            assert(rotate_from(s, c)[p.len() + i] == s[wrap(c + p.len() + i, n)]);
        } else {
            assert((p + q)[i - q.len()] == p[i - q.len()]);
            assert(rotate_from(s, c)[i - q.len()] == s[wrap(c + i - q.len(), n)]);
        }
    }
    assert(r =~= q + p);
    assert(0 <= c2 < n && rotate_from(s, c2) == q + p);
}

/// The same cycle read from another block boundary, in either direction.
pub proof fn lemma_same_rot(s: Seq<usize>, p: Seq<usize>, q: Seq<usize>)
    requires
        same_cycle(s, p + q),
        p.len() > 0,
        q.len() > 0,
    ensures
        same_cycle(s, q + p),
{
    lemma_reversed_add(p, q);
    lemma_reversed_add(q, p);
    if cyc_eq(s, p + q) {
        lemma_cyc_rot(s, p, q);
    } else {
        lemma_cyc_rot(s, reversed(q), reversed(p));
    }
}

/// The same cycle walked the other way round.
pub proof fn lemma_same_rev(s: Seq<usize>, w: Seq<usize>)
    requires
        same_cycle(s, w),
    ensures
        same_cycle(s, reversed(w)),
{
    lemma_reversed_twice(w);
}

/// Reading a concatenation backwards reads its parts backwards, in the
/// other order.
pub proof fn lemma_reversed_add(p: Seq<usize>, q: Seq<usize>)
    ensures
        reversed(p + q) == reversed(q) + reversed(p),
{
    assert(reversed(p + q) =~= reversed(q) + reversed(p));
}

/// Reading backwards twice gives the sequence back.
pub proof fn lemma_reversed_twice(p: Seq<usize>)
    ensures
        reversed(reversed(p)) == p,
{
    assert(reversed(reversed(p)) =~= p);
}

/// A block reversal, read from the block's start: the block backwards,
/// then the rest.
pub proof fn lemma_rot_rev_block(s: Seq<usize>, st: int, len: int)
    requires
        0 <= st < s.len(),
        0 <= len <= s.len(),
    ensures
        rotate_from(rev_block(s, st, len), st) == reversed(rotate_from(s, st).take(len)) + rotate_from(s, st).skip(
            len,
        ),
{
    let n = s.len() as int;
    let a = rotate_from(rev_block(s, st, len), st);
    let b = reversed(rotate_from(s, st).take(len)) + rotate_from(s, st).skip(len);
    assert forall|i: int| 0 <= i < n implies a[i] == b[i] by {
        assert(wrap(wrap(st + i, n) - st, n) == i);
        if i < len {
            assert(b[i] == rotate_from(s, st)[len - 1 - i]);
        } else {
            assert(b[i] == rotate_from(s, st)[i]);
        }
    }
    assert(a =~= b);
}

/// Where the blocks of a cycle read from position `c` start and end, and
/// the cycle read from the start of its second block.
#[verifier::spinoff_prover]
#[verifier::rlimit(30)]
proof fn lemma_cyc_blocks(s: Seq<usize>, c: int, x: Seq<usize>, y: Seq<usize>)
    requires
        is_tour(s),
        0 <= c < s.len(),
        rotate_from(s, c) == x + y,
        x.len() > 0,
        y.len() > 0,
    ensures
        x.len() + y.len() == s.len(),
        pos_of(s, x[0]) == c,
        pos_of(s, y[0]) == wrap(c + x.len(), s.len() as int),
        path_len(s, y[0], y.last()) == y.len(),
        path_len(s, x[0], x.last()) == x.len(),
        rotate_from(s, wrap(c + x.len(), s.len() as int)) == y + x,
{
    let n = s.len() as int;
    let w = x + y;
    assert(rotate_from(s, c).len() == n);
    let lx = x.len() as int;
    assert(w[0] == x[0]);
    assert(w[lx] == y[0]);
    assert(w[lx - 1] == x.last());
    assert(w[n - 1] == y.last());
    lemma_pos_of(s, c);
    lemma_pos_of(s, wrap(c + lx, n));
    lemma_pos_of(s, wrap(c + lx - 1, n));
    lemma_pos_of(s, wrap(c + n - 1, n));
    assert(x[0] == s[c]);
    assert(y[0] == s[wrap(c + lx, n)]);
    assert(x.last() == s[wrap(c + lx - 1, n)]);
    assert(y.last() == s[wrap(c + n - 1, n)]);
    let c2 = wrap(c + lx, n);
    let r = rotate_from(s, c2);
    assert forall|i: int| 0 <= i < n implies r[i] == (y + x)[i] by {
        if i < y.len() {
            assert(w[lx + i] == y[i]);
            assert(rotate_from(s, c)[lx + i] == s[wrap(c + lx + i, n)]);
        } else {
            assert(w[i - y.len()] == x[i - y.len()]);
            assert(rotate_from(s, c)[i - y.len()] == s[wrap(c + i - y.len(), n)]);
        }
    }
    assert(r =~= y + x);
}

/// A 2-opt move on a cycle made of three blocks `x y z`, replacing the arcs
/// at both ends of `y`, reverses `y` in the cycle.
#[verifier::spinoff_prover]
#[verifier::rlimit(30)]
pub proof fn lemma_flip3(s: Seq<usize>, s2: Seq<usize>, x: Seq<usize>, y: Seq<usize>, z: Seq<usize>)
    requires
        is_tour(s),
        cyc_eq(s, x + y + z),
        x.len() > 0,
        y.len() > 0,
        z.len() > 0,
        s2 == rev_path(s, y[0], y.last()) || s2 == rev_path(s, z[0], x.last()),
    ensures
        same_cycle(s2, x + reversed(y) + z),
{
    let n = s.len() as int;
    let c = choose|c: int| 0 <= c < s.len() && #[trigger] rotate_from(s, c) == x + y + z;
    assert(x + y + z =~= x + (y + z));
    lemma_cyc_blocks(s, c, x, y + z);
    assert((y + z)[0] == y[0]);
    let c1 = wrap(c + x.len(), n);
    assert(y + z + x =~= y + (z + x));
    lemma_cyc_blocks(s, c1, y, z + x);
    assert((z + x)[0] == z[0]);
    let c2 = wrap(c1 + y.len(), n);
    assert(z + x + y =~= (z + x) + y);
    lemma_cyc_blocks(s, c2, z + x, y);
    assert((z + x).last() == x.last());
    lemma_reversed_add(z, x);
    if s2 == rev_path(s, y[0], y.last()) {
        lemma_rot_rev_block(s, c1, y.len() as int);
        assert((y + (z + x)).take(y.len() as int) =~= y);
        assert((y + (z + x)).skip(y.len() as int) =~= z + x);
        assert(rotate_from(s2, c1) == reversed(y) + (z + x));
        assert(reversed(y) + (z + x) =~= (reversed(y) + z) + x);
        assert(cyc_eq(s2, (reversed(y) + z) + x));
        lemma_cyc_rot(s2, reversed(y) + z, x);
        assert(x + (reversed(y) + z) =~= x + reversed(y) + z);
    } else {
        lemma_rot_rev_block(s, c2, (z + x).len() as int);
        assert(((z + x) + y).take((z + x).len() as int) =~= z + x);
        assert(((z + x) + y).skip((z + x).len() as int) =~= y);
        assert(rotate_from(s2, c2) == (reversed(x) + reversed(z)) + y);
        assert(reversed(x) + reversed(z) + y =~= reversed(x) + (reversed(z) + y));
        assert(cyc_eq(s2, reversed(x) + (reversed(z) + y)));
        lemma_cyc_rot(s2, reversed(x), reversed(z) + y);
        lemma_reversed_add(x + reversed(y), z);
        lemma_reversed_add(x, reversed(y));
        lemma_reversed_twice(y);
        assert(reversed(x + reversed(y) + z) =~= reversed(z) + y + reversed(x));
        assert(reversed(z) + y + reversed(x) =~= (reversed(z) + y) + reversed(x));
    }
}

/// A 2-opt move on a cycle made of two blocks `x y`, replacing the arcs at
/// both ends of `y`, reverses `y` in the cycle.
#[verifier::spinoff_prover]
#[verifier::rlimit(30)]
pub proof fn lemma_flip2(s: Seq<usize>, s2: Seq<usize>, x: Seq<usize>, y: Seq<usize>)
    requires
        is_tour(s),
        cyc_eq(s, x + y),
        x.len() > 0,
        y.len() > 0,
        s2 == rev_path(s, y[0], y.last()) || s2 == rev_path(s, x[0], x.last()),
    ensures
        same_cycle(s2, x + reversed(y)),
{
    let n = s.len() as int;
    let c = choose|c: int| 0 <= c < s.len() && #[trigger] rotate_from(s, c) == x + y;
    lemma_cyc_blocks(s, c, x, y);
    let c1 = wrap(c + x.len(), n);
    lemma_cyc_blocks(s, c1, y, x);
    if s2 == rev_path(s, y[0], y.last()) {
        lemma_rot_rev_block(s, c1, y.len() as int);
        assert((y + x).take(y.len() as int) =~= y);
        assert((y + x).skip(y.len() as int) =~= x);
        assert(rotate_from(s2, c1) == reversed(y) + x);
        assert(cyc_eq(s2, reversed(y) + x));
        lemma_cyc_rot(s2, reversed(y), x);
    } else {
        lemma_rot_rev_block(s, c, x.len() as int);
        assert((x + y).take(x.len() as int) =~= x);
        assert((x + y).skip(x.len() as int) =~= y);
        assert(rotate_from(s2, c) == reversed(x) + y);
        assert(cyc_eq(s2, reversed(x) + y));
        lemma_cyc_rot(s2, reversed(x), y);
        lemma_reversed_add(x, reversed(y));
        lemma_reversed_twice(y);
    }
}

/// A cycle that a tour is has as many nodes as the tour, each below that number.
pub proof fn lemma_same_len(s: Seq<usize>, w: Seq<usize>)
    requires
        is_tour(s),
        same_cycle(s, w),
    ensures
        w.len() == s.len(),
        forall|k: int| 0 <= k < w.len() ==> #[trigger] w[k] < s.len(),
        forall|k: int, l: int| 0 <= k < w.len() && 0 <= l < w.len() && k != l ==> w[k] != w[l],
{
    if cyc_eq(s, w) {
        let c = choose|c: int| 0 <= c < s.len() && #[trigger] rotate_from(s, c) == w;
        lemma_cyc_index(s, c);
    } else {
        let c = choose|c: int| 0 <= c < s.len() && #[trigger] rotate_from(s, c) == reversed(w);
        lemma_cyc_index(s, c);
        let n = w.len() as int;
        assert forall|k: int| 0 <= k < w.len() implies #[trigger] w[k] < s.len() by {
            assert(reversed(w)[w.len() - 1 - k] == w[k]);
        }
        assert forall|k: int, l: int| 0 <= k < w.len() && 0 <= l < w.len() && k != l implies w[k] != w[l] by {
            assert(reversed(w)[n - 1 - k] == w[k]);
            assert(reversed(w)[n - 1 - l] == w[l]);
        }
    }
}

/// On a tour of three or more nodes, the direction of one arc of a cycle
/// decides the direction in which the whole cycle is walked.
#[verifier::spinoff_prover]
#[verifier::rlimit(30)]
pub proof fn lemma_orient(s: Seq<usize>, w: Seq<usize>, i: int)
    requires
        is_tour(s),
        s.len() >= 3,
        same_cycle(s, w),
        0 <= i < s.len(),
    ensures
        w.len() == s.len(),
        next_in(s, w[i]) == w[wrap(i + 1, s.len() as int)] ==> cyc_eq(s, w),
        next_in(s, w[wrap(i + 1, s.len() as int)]) == w[i] ==> cyc_eq(s, reversed(w)),
{
    let n = s.len() as int;
    let i1 = wrap(i + 1, n);
    if cyc_eq(s, w) {
        let c = choose|c: int| 0 <= c < s.len() && #[trigger] rotate_from(s, c) == w;
        lemma_cyc_index(s, c);
        assert(next_in(s, w[i]) == w[i1]);
        assert(next_in(s, w[i1]) == w[wrap(i1 + 1, n)]);
        assert(wrap(i1 + 1, n) != i);
    } else {
        let r = reversed(w);
        let c = choose|c: int| 0 <= c < s.len() && #[trigger] rotate_from(s, c) == r;
        lemma_cyc_index(s, c);
        assert(r.len() == n);
        let j = n - 1 - i;
        let j1 = n - 1 - i1;
        assert(r[j] == w[i]);
        assert(r[j1] == w[i1]);
        assert(next_in(s, w[i1]) == r[wrap(j1 + 1, n)]);
        assert(wrap(j1 + 1, n) == j);
        assert(next_in(s, w[i]) == r[wrap(j + 1, n)]);
        assert(wrap(j + 1, n) != j1);
    }
}

/// Which way a tour walks a cycle, read off one of the cycle's arcs: node
/// `i + 1` of the cycle directly follows or directly precedes node `i`.
#[verifier::spinoff_prover]
#[verifier::rlimit(30)]
pub proof fn lemma_orient_rel(s: Seq<usize>, w: Seq<usize>, i: int)
    requires
        is_tour(s),
        s.len() >= 3,
        same_cycle(s, w),
        0 <= i < s.len(),
    ensures
        w.len() == s.len(),
        w[i] < s.len(),
        next_in(s, w[i]) == w[wrap(i + 1, s.len() as int)] || prev_in(s, w[i]) == w[wrap(i + 1, s.len() as int)],
        next_in(s, w[i]) == w[wrap(i + 1, s.len() as int)] ==> cyc_eq(s, w),
        prev_in(s, w[i]) == w[wrap(i + 1, s.len() as int)] ==> cyc_eq(s, reversed(w)),
{
    let n = s.len() as int;
    lemma_same_len(s, w);
    lemma_orient(s, w, i);
    let i1 = wrap(i + 1, n);
    lemma_next_prev(s, w[i]);
    lemma_next_prev(s, w[i1]);
    if cyc_eq(s, w) {
        let c = choose|c: int| 0 <= c < s.len() && #[trigger] rotate_from(s, c) == w;
        lemma_cyc_index(s, c);
    } else {
        let r = reversed(w);
        let c = choose|c: int| 0 <= c < s.len() && #[trigger] rotate_from(s, c) == r;
        lemma_cyc_index(s, c);
        assert(r[n - 1 - i1] == w[i1]);
        assert(r[wrap(n - 1 - i1 + 1, n)] == w[i]);
    }
}

/// The arcs at both ends of the block `y` of a cycle `x y z` (or `x y`,
/// when `z` is empty) are arcs of the tour, in the direction in which the
/// tour walks the cycle.
pub proof fn lemma_step_arcs(s: Seq<usize>, x: Seq<usize>, y: Seq<usize>, z: Seq<usize>)
    requires
        is_tour(s),
        s.len() >= 3,
        same_cycle(s, x + y + z),
        x.len() > 0,
        y.len() > 0,
    ensures
        ({
            let a = x.last();
            let b = y[0];
            let c = y.last();
            let d = if z.len() > 0 {
                z[0]
            } else {
                x[0]
            };
            &&& a < s.len() && b < s.len() && c < s.len() && d < s.len()
            &&& cyc_eq(s, x + y + z) ==> two_arcs(s, a, b, c, d)
            &&& cyc_eq(s, reversed(x + y + z)) ==> two_arcs(s, b, a, d, c)
        }),
{
    let n = s.len() as int;
    let w = x + y + z;
    let lx = x.len() as int;
    let ly = y.len() as int;
    lemma_same_len(s, w);
    assert(w[lx - 1] == x.last());
    assert(w[lx] == y[0]);
    assert(w[lx + ly - 1] == y.last());
    let id = if z.len() > 0 {
        lx + ly
    } else {
        0
    };
    assert(w[id] == if z.len() > 0 {
        z[0]
    } else {
        x[0]
    });
    assert(id == wrap(lx + ly - 1 + 1, n));
    assert(w[lx - 1] != w[lx + ly - 1]);
    assert(w[lx] != w[id]);
    if cyc_eq(s, w) {
        lemma_arcs_fwd(s, w, lx - 1);
        lemma_arcs_fwd(s, w, lx + ly - 1);
    }
    if cyc_eq(s, reversed(w)) {
        lemma_arcs_rev(s, w, lx - 1);
        lemma_arcs_rev(s, w, lx + ly - 1);
    }
}

/// On a tour that is the cycle `w` walked forward, node `i + 1` of `w`
/// follows node `i`.
#[verifier::spinoff_prover]
pub proof fn lemma_arcs_fwd(s: Seq<usize>, w: Seq<usize>, i: int)
    requires
        is_tour(s),
        cyc_eq(s, w),
        0 <= i < s.len(),
    ensures
        next_in(s, w[i]) == w[wrap(i + 1, s.len() as int)],
        w[i] != w[wrap(i + 1, s.len() as int)] || s.len() == 1,
{
    let c = choose|c: int| 0 <= c < s.len() && #[trigger] rotate_from(s, c) == w;
    lemma_cyc_index(s, c);
}

/// On a tour that is the cycle `w` walked backwards, node `i` of `w`
/// follows node `i + 1`.
#[verifier::spinoff_prover]
pub proof fn lemma_arcs_rev(s: Seq<usize>, w: Seq<usize>, i: int)
    requires
        is_tour(s),
        cyc_eq(s, reversed(w)),
        0 <= i < s.len(),
    ensures
        next_in(s, w[wrap(i + 1, s.len() as int)]) == w[i],
{
    let n = s.len() as int;
    let r = reversed(w);
    let c = choose|c: int| 0 <= c < s.len() && #[trigger] rotate_from(s, c) == r;
    lemma_cyc_index(s, c);
    let i1 = wrap(i + 1, n);
    assert(r[n - 1 - i1] == w[i1]);
    assert(r[wrap(n - 1 - i1 + 1, n)] == w[i]);
}

/// A 2-opt move on the arcs at both ends of the block `y` of a cycle
/// `x y z`, taken in the direction in which the tour walks the cycle,
/// reverses `y` in the cycle.
#[verifier::spinoff_prover]
#[verifier::rlimit(30)]
pub proof fn lemma_step3(s: Seq<usize>, s2: Seq<usize>, x: Seq<usize>, y: Seq<usize>, z: Seq<usize>)
    requires
        is_tour(s),
        s.len() >= 3,
        x.len() > 0,
        y.len() > 0,
        z.len() > 0,
        cyc_eq(s, x + y + z) && flipped(s, s2, x.last(), y[0], y.last(), z[0]) || cyc_eq(s, reversed(x + y + z))
            && flipped(s, s2, y[0], x.last(), z[0], y.last()),
    ensures
        same_cycle(s2, x + reversed(y) + z),
{
    let a = x.last();
    let b = y[0];
    if cyc_eq(s, x + y + z) && flipped(s, s2, a, b, y.last(), z[0]) {
        lemma_flip3(s, s2, x, y, z);
    } else {
        lemma_reversed_add(x + y, z);
        lemma_reversed_add(x, y);
        let w = reversed(z) + reversed(y) + reversed(x);
        assert(reversed(x + y + z) == w);
        assert(w =~= reversed(z) + (reversed(y) + reversed(x)));
        lemma_cyc_rot(s, reversed(z), reversed(y) + reversed(x));
        let u = reversed(x) + reversed(z);
        assert(reversed(y) + reversed(x) + reversed(z) =~= reversed(y) + u);
        assert(reversed(y) + reversed(x) + reversed(z) =~= (reversed(y) + reversed(x)) + reversed(z));
        assert(cyc_eq(s, reversed(y) + u));
        assert(reversed(y).last() == b);
        assert(u[0] == a);
        assert(u.last() == z[0]);
        assert(reversed(y)[0] == y.last());
        lemma_flip2(s, s2, reversed(y), u);
        lemma_reversed_add(reversed(x), reversed(z));
        lemma_reversed_twice(x);
        lemma_reversed_twice(z);
        assert(reversed(u) == z + x);
        assert(same_cycle(s2, reversed(y) + (z + x)));
        assert(reversed(y) + (z + x) =~= (reversed(y) + z) + x);
        lemma_same_rot(s2, reversed(y) + z, x);
        assert(x + (reversed(y) + z) =~= x + reversed(y) + z);
    }
}

/// A 2-opt move on the arcs at both ends of the block `y` of a cycle `x y`,
/// taken in the direction in which the tour walks the cycle, reverses `y`
/// in the cycle.
#[verifier::spinoff_prover]
#[verifier::rlimit(30)]
pub proof fn lemma_step2(s: Seq<usize>, s2: Seq<usize>, x: Seq<usize>, y: Seq<usize>)
    requires
        is_tour(s),
        s.len() >= 3,
        x.len() > 0,
        y.len() > 0,
        cyc_eq(s, x + y) && flipped(s, s2, x.last(), y[0], y.last(), x[0]) || cyc_eq(s, reversed(x + y))
            && flipped(s, s2, y[0], x.last(), x[0], y.last()),
    ensures
        same_cycle(s2, x + reversed(y)),
{
    let a = x.last();
    let b = y[0];
    if cyc_eq(s, x + y) && flipped(s, s2, a, b, y.last(), x[0]) {
        lemma_flip2(s, s2, x, y);
    } else {
        lemma_reversed_add(x, y);
        lemma_cyc_rot(s, reversed(y), reversed(x));
        assert(reversed(x).last() == x[0]);
        assert(reversed(x)[0] == a);
        assert(reversed(y).last() == b);
        assert(reversed(y)[0] == y.last());
        lemma_flip2(s, s2, reversed(x), reversed(y));
        lemma_reversed_twice(y);
        lemma_reversed_add(reversed(x), y);
        lemma_reversed_twice(x);
        assert(reversed(reversed(x) + y) == reversed(y) + x);
        lemma_same_rev(s2, reversed(x) + y);
        lemma_same_rot(s2, reversed(y), x);
    }
}

/// The nodes on the forward walk from `a` to `b`: how many, where they are,
/// where the walk starts and ends.
pub proof fn lemma_path(s: Seq<usize>, a: usize, b: usize)
    requires
        is_tour(s),
        a < s.len(),
        b < s.len(),
    ensures
        path(s, a, b).len() == path_len(s, a, b),
        1 <= path_len(s, a, b) <= s.len(),
        forall|i: int| 0 <= i < path_len(s, a, b) ==> #[trigger] path(s, a, b)[i] == s[wrap(pos_of(s, a) + i, s.len() as int)],
        path(s, a, b)[0] == a,
        path(s, a, b).last() == b,
{
    lemma_pos_in_tour(s, a);
    lemma_pos_in_tour(s, b);
    let n = s.len() as int;
    let l = path_len(s, a, b);
    assert(path(s, a, b)[l - 1] == s[wrap(pos_of(s, a) + l - 1, n)]);
    assert(wrap(pos_of(s, a) + l - 1, n) == pos_of(s, b));
}

/// Reading a tour backwards twice gives the tour back.
pub proof fn law_rev_twice(s: Seq<usize>)
    ensures
        reversed(reversed(s)) == s,
{
    lemma_reversed_twice(s);
}

/// On the tour read backwards, `b` lies on the walk from `a` to `c` exactly
/// when, on the tour, it lies on the walk from `c` to `a`.
pub proof fn law_between_reversed(s: Seq<usize>, a: usize, b: usize, c: usize)
    requires
        is_tour(s),
        a < s.len(),
        b < s.len(),
        c < s.len(),
    ensures
        between_in(reversed(s), a, b, c) == between_in(s, c, b, a),
{
    lemma_pos_reversed(s, a);
    lemma_pos_reversed(s, b);
    lemma_pos_reversed(s, c);
    lemma_pos_in_tour(s, a);
    lemma_pos_in_tour(s, b);
    lemma_pos_in_tour(s, c);
    lemma_between_mirror(pos_of(s, c), pos_of(s, b), pos_of(s, a), s.len() as int);
}

/// The walk from `a` to `b` is as long as the walk from `b` to `a` on the
/// tour read backwards.
pub proof fn lemma_path_len_reversed(s: Seq<usize>, a: usize, b: usize)
    requires
        is_tour(s),
        a < s.len(),
        b < s.len(),
    ensures
        path_len(reversed(s), b, a) == path_len(s, a, b),
{
    lemma_pos_reversed(s, a);
    lemma_pos_reversed(s, b);
    lemma_pos_in_tour(s, a);
    lemma_pos_in_tour(s, b);
}

/// On a tour read as the order `s`, the successor of each node is the next
/// node of the order and its predecessor the previous one, wrapping around
/// at the ends.
pub proof fn law_order_successors(s: Seq<usize>)
    requires
        is_tour(s),
    ensures
        forall|i: int|
            0 <= i < s.len() ==> next_in(s, #[trigger] s[i]) == s[wrap(i + 1, s.len() as int)] && prev_in(s, s[i])
                == s[wrap(i - 1, s.len() as int)],
{
    if s.len() > 0 {
        lemma_cyc_index(s, 0);
        let n = s.len() as int;
        assert(rotate_from(s, 0) =~= s);
    }
}

} // verus!
