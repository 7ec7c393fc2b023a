//! A tour stored as an array of nodes in tour order, with a tracker that
//! maps each node to its position.
//!
//! ```text
//! nodes[tracker[v]] == v
//! Index:    | 0   | 1   | 2   | 3   | 4   | 5   |
//! nodes:    | n_4 | n_2 | n_1 | n_5 | n_0 | n_3 |
//! tracker:  | 4   | 2   | 1   | 5   | 0   | 3   |
//! ```
use vstd::prelude::*;

use crate::tour::cycle::{
    between_in, is_perm, is_tour, lemma_pos_in_tour, lemma_pos_of, lemma_pos_reversed, lemma_reversed_tour,
    next_in, pos_of, prev_in, reversed, wrap, two_arcs, flipped, rev_block, lemma_next_prev,
    lemma_next_reversed, lemma_flip_blocks, lemma_reversed_rev_path, lemma_path_len_reversed, path_len, rev_path, flip_result,
};
use crate::tour::{between, relation_spec, NodeRel, TourNode, TourOrder, UpdateTourError};

verus! {

pub struct Array {
    nodes: Vec<usize>,
    tracker: Vec<usize>,
    visited: Vec<bool>,
    candidates: Vec<Vec<TourNode>>,
    rev: bool,
}

impl View for Array {
    type V = Seq<usize>;

    /// The tour, read in its forward direction.
    closed spec fn view(&self) -> Seq<usize> {
        if self.rev {
            reversed(self.nodes@)
        } else {
            self.nodes@
        }
    }
}

/// `nodes` and `tracker` are inverse permutations of `0..nodes.len()`.
pub open spec fn inverse_perms(nodes: Seq<usize>, tracker: Seq<usize>) -> bool {
    let n = nodes.len();
    &&& tracker.len() == n
    &&& forall|p: int| 0 <= p < n ==> #[trigger] nodes[p] < n && tracker[nodes[p] as int] == p
    &&& forall|v: int| 0 <= v < n ==> #[trigger] tracker[v] < n && nodes[tracker[v] as int] == v
}

/// The stored order `nodes` after the first `i` steps of `apply` with
/// `ord`: step `k` brings node `ord[k]` to place `k` by exchanging it with
/// the node standing there.
pub open spec fn swap_steps(nodes: Seq<usize>, ord: Seq<usize>, i: nat) -> Seq<usize>
    decreases i,
{
    if i == 0 {
        nodes
    } else {
        let nd = swap_steps(nodes, ord, (i - 1) as nat);
        let k = i - 1;
        nd.update(pos_of(nd, ord[k]), nd[k]).update(k, ord[k])
    }
}

/// The visited flags after the first `i` steps of `apply` with `ord`:
/// step `k` clears the flag of node `ord[k]`.
pub open spec fn clear_steps(flags: Seq<bool>, ord: Seq<usize>, i: nat) -> Seq<bool>
    decreases i,
{
    if i == 0 {
        flags
    } else {
        clear_steps(flags, ord, (i - 1) as nat).update(ord[i - 1] as int, false)
    }
}

/// Inverse permutations make a tour.
pub proof fn lemma_inverse_perms_tour(nodes: Seq<usize>, tracker: Seq<usize>)
    requires
        inverse_perms(nodes, tracker),
    ensures
        is_tour(nodes),
        is_tour(reversed(nodes)),
        forall|v: usize| v < nodes.len() ==> #[trigger] pos_of(nodes, v) == tracker[v as int],
{
    let n = nodes.len();
    assert forall|i: int, j: int| 0 <= i < n && 0 <= j < n && i != j implies nodes[i] != nodes[j] by {
        assert(tracker[nodes[i] as int] == i);
        assert(tracker[nodes[j] as int] == j);
    }
    assert forall|v: usize| v < n implies #[trigger] nodes.contains(v) by {
        assert(nodes[tracker[v as int] as int] == v);
    }
    assert forall|v: usize| v < n implies #[trigger] pos_of(nodes, v) == tracker[v as int] by {
        assert(nodes[tracker[v as int] as int] == v);
        lemma_pos_of(nodes, tracker[v as int] as int);
    }
    lemma_reversed_tour(nodes);
}

impl Array {
    pub closed spec fn wf(&self) -> bool {
        &&& inverse_perms(self.nodes@, self.tracker@)
        &&& self.visited.len() == self.nodes.len()
        &&& self.candidates.len() == self.nodes.len()
    }

    /// Whether the tour is read against the direction in which it is stored
    /// (after an odd number of `rev` calls since it was last laid out).
    pub closed spec fn is_reversed(&self) -> bool {
        self.rev
    }

    /// The visited flag of each node.
    pub closed spec fn flags(&self) -> Seq<bool> {
        self.visited@
    }

    /// The candidate list of each node.
    pub closed spec fn cands(&self) -> Seq<Seq<TourNode>> {
        Seq::new(self.candidates.len() as nat, |i: int| self.candidates[i]@)
    }

    /// A well-formed array tour is a tour over its nodes.
    pub proof fn lemma_tour(&self)
        requires
            self.wf(),
        ensures
            is_tour(self@),
            self.flags().len() == self@.len(),
            self.cands().len() == self@.len(),
    {
        lemma_inverse_perms_tour(self.nodes@, self.tracker@);
    }

    /// Where node `v` stands on the tour.
    proof fn lemma_pos(&self, v: usize)
        requires
            self.wf(),
            v < self.nodes.len(),
        ensures
            is_tour(self@),
            pos_of(self@, v) == if self.rev {
                self.nodes.len() - 1 - self.tracker[v as int]
            } else {
                self.tracker[v as int] as int
            },
    {
        lemma_inverse_perms_tour(self.nodes@, self.tracker@);
        if self.rev {
            lemma_pos_reversed(self.nodes@, v);
        }
    }

    /// Creates the tour `0, 1, .., n_nodes - 1` with no visited node and no candidates.
    pub fn new(n_nodes: usize) -> (r: Array)
        ensures
            r.wf(),
            r@ == Seq::new(n_nodes as nat, |i: int| i as usize),
            r.flags() == Seq::new(n_nodes as nat, |i: int| false),
            r.cands() == Seq::new(n_nodes as nat, |i: int| Seq::<TourNode>::empty()),
            !r.is_reversed(),
    {
        let mut nodes: Vec<usize> = Vec::with_capacity(n_nodes);
        let mut tracker: Vec<usize> = Vec::with_capacity(n_nodes);
        let mut visited: Vec<bool> = Vec::with_capacity(n_nodes);
        let mut candidates: Vec<Vec<TourNode>> = Vec::with_capacity(n_nodes);
        let mut i: usize = 0;
        while i < n_nodes
            invariant
                i <= n_nodes,
                nodes@ == Seq::new(i as nat, |k: int| k as usize),
                tracker@ == Seq::new(i as nat, |k: int| k as usize),
                visited@ == Seq::new(i as nat, |k: int| false),
                candidates.len() == i,
                forall|k: int| 0 <= k < i ==> (#[trigger] candidates[k])@ == Seq::<TourNode>::empty(),
            decreases n_nodes - i,
        {
            nodes.push(i);
            tracker.push(i);
            visited.push(false);
            candidates.push(Vec::new());
            i = i + 1;
        }
        let r = Array { nodes, tracker, visited, candidates, rev: false };
        assert(r.cands() =~= Seq::new(n_nodes as nat, |i: int| Seq::<TourNode>::empty()));
        r
    }

    /// Returns the number of nodes in the tour.
    pub fn len(&self) -> (r: usize)
        requires
            self.wf(),
        ensures
            r == self@.len(),
    {
        self.nodes.len()
    }

    /// Exchanges the positions of the nodes at positions `pa` and `pb`.
    fn swap_pos(&mut self, pa: usize, pb: usize)
        requires
            old(self).wf(),
            pa < old(self).nodes.len(),
            pb < old(self).nodes.len(),
        ensures
            final(self).wf(),
            final(self).nodes@ == old(self).nodes@.update(pa as int, old(self).nodes[pb as int]).update(
                pb as int,
                old(self).nodes[pa as int],
            ),
            final(self).rev == old(self).rev,
            final(self).visited == old(self).visited,
            final(self).candidates == old(self).candidates,
    {
        let a = self.nodes[pa];
        let b = self.nodes[pb];
        self.nodes.set(pa, b);
        self.nodes.set(pb, a);
        self.tracker.set(a, pb);
        self.tracker.set(b, pa);
        proof {
            let n = self.nodes.len();
            let on = old(self).nodes@;
            let ot = old(self).tracker@;
            assert forall|p: int| 0 <= p < n implies #[trigger] self.nodes[p] < n && self.tracker[self.nodes[p] as int] == p by {
                if p != pa && p != pb {
                    assert(on[p] != a && on[p] != b);
                }
            }
            assert forall|v: int| 0 <= v < n implies #[trigger] self.tracker[v] < n && self.nodes[self.tracker[v] as int] == v by {
                if v != a && v != b {
                    assert(ot[v] != pa && ot[v] != pb);
                }
            }
        }
    }

    /// Exchanges the positions of the nodes with indices `idx_a` and `idx_b`.
    fn swap_at(&mut self, idx_a: usize, idx_b: usize)
        requires
            old(self).wf(),
            idx_a < old(self).nodes.len(),
            idx_b < old(self).nodes.len(),
        ensures
            final(self).wf(),
            final(self).nodes@ == old(self).nodes@.update(
                old(self).tracker[idx_a as int] as int,
                idx_b,
            ).update(old(self).tracker[idx_b as int] as int, idx_a),
            final(self).rev == old(self).rev,
            final(self).visited == old(self).visited,
            final(self).candidates == old(self).candidates,
    {
        let pa = self.tracker[idx_a];
        let pb = self.tracker[idx_b];
        self.swap_pos(pa, pb);
    }

    /// Returns the handle on the node with the given index, or `None` if the
    /// tour holds no such node.
    pub fn get(&self, node_idx: usize) -> (r: Option<TourNode>)
        requires
            self.wf(),
        ensures
            node_idx < self@.len() ==> r == Some(TourNode::at(node_idx)),
            node_idx >= self@.len() ==> r is None,
    {
        if node_idx < self.tracker.len() {
            let p = self.tracker[node_idx];
            Some(TourNode::new(self.nodes[p]))
        } else {
            None
        }
    }

    /// Returns the direct successor, in the forward traversal, of the node
    /// with the given index; `None` if there is no such node.
    pub fn successor_at(&self, node_idx: usize) -> (r: Option<TourNode>)
        requires
            self.wf(),
        ensures
            node_idx < self@.len() ==> r == Some(TourNode::at(next_in(self@, node_idx))),
            node_idx >= self@.len() ==> r is None,
    {
        let len = self.nodes.len();
        if node_idx >= len {
            return None;
        }
        let curr_idx = self.tracker[node_idx];
        let next_idx = if self.rev {
            if curr_idx == 0 { len - 1 } else { curr_idx - 1 }
        } else {
            if curr_idx + 1 == len { 0 } else { curr_idx + 1 }
        };
        proof {
            self.lemma_pos(node_idx);
            let q = wrap(pos_of(self@, node_idx) + 1, len as int);
            if self.rev {
                assert(self@[q] == self.nodes@[len - 1 - q]);
            }
        }
        Some(TourNode::new(self.nodes[next_idx]))
    }

    /// Returns the direct predecessor, in the forward traversal, of the node
    /// with the given index; `None` if there is no such node.
    pub fn predecessor_at(&self, node_idx: usize) -> (r: Option<TourNode>)
        requires
            self.wf(),
        ensures
            node_idx < self@.len() ==> r == Some(TourNode::at(prev_in(self@, node_idx))),
            node_idx >= self@.len() ==> r is None,
    {
        let len = self.nodes.len();
        if node_idx >= len {
            return None;
        }
        let curr_idx = self.tracker[node_idx];
        let prev_idx = if self.rev {
            if curr_idx + 1 == len { 0 } else { curr_idx + 1 }
        } else {
            if curr_idx == 0 { len - 1 } else { curr_idx - 1 }
        };
        proof {
            self.lemma_pos(node_idx);
            let q = wrap(pos_of(self@, node_idx) - 1, len as int);
            if self.rev {
                assert(self@[q] == self.nodes@[len - 1 - q]);
            }
        }
        Some(TourNode::new(self.nodes[prev_idx]))
    }

    /// The successor of the node a handle stands for.
    pub fn successor(&self, node: &TourNode) -> (r: Option<TourNode>)
        requires
            self.wf(),
        ensures
            node.index_spec() < self@.len() ==> r == Some(TourNode::at(next_in(self@, node.index_spec()))),
            node.index_spec() >= self@.len() ==> r is None,
    {
        self.successor_at(node.index())
    }

    /// The predecessor of the node a handle stands for.
    pub fn predecessor(&self, node: &TourNode) -> (r: Option<TourNode>)
        requires
            self.wf(),
        ensures
            node.index_spec() < self@.len() ==> r == Some(TourNode::at(prev_in(self@, node.index_spec()))),
            node.index_spec() >= self@.len() ==> r is None,
    {
        self.predecessor_at(node.index())
    }

    /// Returns true iff the tour, starting at the node `from_idx`, arrives at
    /// the node `mid_idx` before reaching the node `to_idx` in its forward
    /// traversal; false if one of them is not on the tour.
    pub fn between_at(&self, from_idx: usize, mid_idx: usize, to_idx: usize) -> (r: bool)
        requires
            self.wf(),
        ensures
            r == (from_idx < self@.len() && mid_idx < self@.len() && to_idx < self@.len()
                && between_in(self@, from_idx, mid_idx, to_idx)),
    {
        let len = self.tracker.len();
        if from_idx >= len || mid_idx >= len || to_idx >= len {
            return false;
        }
        let f = self.tracker[from_idx];
        let m = self.tracker[mid_idx];
        let t = self.tracker[to_idx];
        proof {
            self.lemma_pos(from_idx);
            self.lemma_pos(mid_idx);
            self.lemma_pos(to_idx);
        }
        if self.rev {
            between(t, m, f)
        } else {
            between(f, m, t)
        }
    }

    /// `between_at` on the nodes that handles stand for.
    pub fn between(&self, from: &TourNode, mid: &TourNode, to: &TourNode) -> (r: bool)
        requires
            self.wf(),
        ensures
            r == (from.index_spec() < self@.len() && mid.index_spec() < self@.len() && to.index_spec()
                < self@.len() && between_in(self@, from.index_spec(), mid.index_spec(), to.index_spec())),
    {
        self.between_at(from.index(), mid.index(), to.index())
    }

    /// Tells how `base` sits next to `targ`: `Predecessor` if `targ` directly
    /// follows `base`, else `Successor` if `targ` directly precedes `base`,
    /// else `Neither`.
    pub fn relation(&self, base: &TourNode, targ: &TourNode) -> (r: NodeRel)
        requires
            self.wf(),
        ensures
            r == relation_spec(self@, *base, *targ),
    {
        match (self.successor(base), self.predecessor(base)) {
            (Some(s), Some(p)) => {
                if s.inner == targ.inner {
                    NodeRel::Predecessor
                } else if p.inner == targ.inner {
                    NodeRel::Successor
                } else {
                    NodeRel::Neither
                }
            },
            _ => NodeRel::Neither,
        }
    }

    /// Reverses the direction of the whole tour.
    pub fn rev(&mut self)
        requires
            old(self).wf(),
        ensures
            final(self).wf(),
            final(self)@ == reversed(old(self)@),
            final(self).flags() == old(self).flags(),
            final(self).cands() == old(self).cands(),
    {
        self.rev = !self.rev;
        proof {
            if !self.rev {
                assert(reversed(reversed(self.nodes@)) =~= self.nodes@);
            }
        }
    }

    /// Whether `flip_at(from_a, to_a, from_b, to_b)` reverses the path
    /// `to_a .. from_b` rather than `to_b .. from_a`: of the two stored blocks
    /// between the arcs, the one that does not wrap around the end of the
    /// array is reversed when it is not longer than the other, and the other
    /// one otherwise.
    pub closed spec fn flip_turns(&self, from_a: usize, to_a: usize, from_b: usize, to_b: usize) -> bool {
        let n = self.tracker.len() as int;
        let (x, y) = if self.rev {
            (self.tracker[to_a as int] as int, self.tracker[to_b as int] as int)
        } else {
            (self.tracker[from_a as int] as int, self.tracker[from_b as int] as int)
        };
        let d = if x < y {
            y - x
        } else {
            x - y
        };
        let inner = d <= n - d;
        if self.rev {
            (x < y) != inner
        } else {
            (x < y) == inner
        }
    }

    /// Which path `flip_at(from_a, to_a, from_b, to_b)` reverses, read off
    /// the tour: `x` and `y` are the places of `from_a` and `from_b` (of
    /// `to_a` and `to_b` when the tour is reversed) in the order in which the
    /// array stores the nodes, `d` their distance. The block between them
    /// that does not wrap around is reversed when `d <= n - d`, the other
    /// one otherwise.
    pub proof fn lemma_flip_turns(&self, from_a: usize, to_a: usize, from_b: usize, to_b: usize)
        requires
            self.wf(),
            from_a < self@.len(),
            to_a < self@.len(),
            from_b < self@.len(),
            to_b < self@.len(),
        ensures
            ({
                let st = if self.is_reversed() {
                    reversed(self@)
                } else {
                    self@
                };
                let n = self@.len() as int;
                let (x, y) = if self.is_reversed() {
                    (pos_of(st, to_a), pos_of(st, to_b))
                } else {
                    (pos_of(st, from_a), pos_of(st, from_b))
                };
                let d = if x < y {
                    y - x
                } else {
                    x - y
                };
                self.flip_turns(from_a, to_a, from_b, to_b) == if self.is_reversed() {
                    (x < y) != (d <= n - d)
                } else {
                    (x < y) == (d <= n - d)
                }
            }),
    {
        lemma_inverse_perms_tour(self.nodes@, self.tracker@);
        assert(reversed(reversed(self.nodes@)) =~= self.nodes@);
    }

    /// `next` is read in the same direction as this tour: with its nodes,
    /// this decides every later flip on it.
    pub closed spec fn flip_leaves(&self, next: Array, from_a: usize, to_a: usize, from_b: usize, to_b: usize) -> bool {
        next.rev == self.rev
    }

    /// Replaces the arcs `(from_a, to_a)` and `(from_b, to_b)` by the arcs
    /// `(from_a, from_b)` and `(to_a, to_b)`, reversing the shorter of the two
    /// paths between them; of two paths of one length, the one that the
    /// stored array holds without wrapping around its end (see `flip_turns`).
    #[verifier::rlimit(40)]
    pub fn flip_at(&mut self, from_a: usize, to_a: usize, from_b: usize, to_b: usize)
        requires
            old(self).wf(),
            two_arcs(old(self)@, from_a, to_a, from_b, to_b),
        ensures
            final(self).wf(),
            flipped(old(self)@, final(self)@, from_a, to_a, from_b, to_b),
            final(self)@ == flip_result(old(self)@, old(self).flip_turns(from_a, to_a, from_b, to_b), from_a, to_a, from_b, to_b),
            old(self).flip_leaves(*final(self), from_a, to_a, from_b, to_b),
            path_len(old(self)@, to_a, from_b) < path_len(old(self)@, to_b, from_a) ==> final(self)@ == rev_path(
                old(self)@,
                to_a,
                from_b,
            ),
            path_len(old(self)@, to_b, from_a) < path_len(old(self)@, to_a, from_b) ==> final(self)@ == rev_path(
                old(self)@,
                to_b,
                from_a,
            ),
            final(self).flags() == old(self).flags(),
            final(self).cands() == old(self).cands(),
    {
        let len = self.tracker.len();
        let ghost t = self@;
        let ghost f = self.nodes@;
        proof {
            self.lemma_tour();
            lemma_inverse_perms_tour(self.nodes@, self.tracker@);
            lemma_next_prev(t, from_a);
            lemma_next_prev(t, from_b);
            if self.rev {
                assert(reversed(f) == t);
                lemma_next_reversed(f, to_a);
                lemma_next_reversed(f, to_b);
                lemma_next_prev(f, to_a);
                lemma_next_prev(f, to_b);
                assert(two_arcs(f, to_a, from_a, to_b, from_b));
            } else {
                assert(two_arcs(f, from_a, to_a, from_b, to_b));
            }
        }
        // The arcs as they run through the stored array: `(p, q)` and `(r, u)`.
        let ghost (p, q, r, u) = if self.rev {
            (to_a, from_a, to_b, from_b)
        } else {
            (from_a, to_a, from_b, to_b)
        };
        let (mut tfa, mut tfb) = if self.rev {
            (self.tracker[to_a], self.tracker[to_b])
        } else {
            (self.tracker[from_a], self.tracker[from_b])
        };
        if tfb < tfa {
            let tmp = tfa;
            tfa = tfb;
            tfb = tmp;
        }
        let tta = tfa + 1;
        let ttb = if tfb + 1 == len {
            0
        } else {
            tfb + 1
        };
        let d1 = tfb - tta + 1;
        let d2 = len - d1;
        if d1 <= d2 {
            self.reverse_block(tta, d1);
        } else {
            self.reverse_block(ttb, d2);
        }
        proof {
            lemma_pos_in_tour(f, p);
            lemma_pos_in_tour(f, r);
            lemma_next_prev(f, p);
            lemma_next_prev(f, r);
            if pos_of(f, p) < pos_of(f, r) {
                lemma_flip_blocks(f, p, q, r, u);
                assert(path_len(f, q, r) == pos_of(f, r) - pos_of(f, p));
                assert(path_len(f, u, p) == len - (pos_of(f, r) - pos_of(f, p)));
            } else {
                lemma_flip_blocks(f, r, u, p, q);
                assert(path_len(f, u, p) == pos_of(f, p) - pos_of(f, r));
                assert(path_len(f, q, r) == len - (pos_of(f, p) - pos_of(f, r)));
            }
            if self.rev {
                lemma_reversed_rev_path(f, from_a, to_b);
                lemma_reversed_rev_path(f, from_b, to_a);
                lemma_path_len_reversed(f, from_a, to_b);
                lemma_path_len_reversed(f, from_b, to_a);
            }
        }
    }

    /// Reverses, in the stored array, the cyclic block of `blen` positions
    /// that starts at position `start`.
    fn reverse_block(&mut self, start: usize, blen: usize)
        requires
            old(self).wf(),
            start < old(self).nodes.len(),
            blen <= old(self).nodes.len(),
        ensures
            final(self).wf(),
            final(self).nodes@ == rev_block(old(self).nodes@, start as int, blen as int),
            final(self).rev == old(self).rev,
            final(self).visited == old(self).visited,
            final(self).candidates == old(self).candidates,
    {
        let n = self.nodes.len();
        let ghost f = self.nodes@;
        let h = blen / 2;
        let mut k: usize = 0;
        while k < h
            invariant
                self.wf(),
                self.nodes.len() == n,
                self.rev == old(self).rev,
                self.visited == old(self).visited,
                self.candidates == old(self).candidates,
                f == old(self).nodes@,
                start < n,
                blen <= n,
                k <= h,
                h == blen / 2,
                forall|x: int|
                    0 <= x < n ==> #[trigger] self.nodes[x] == if wrap(x - start, n as int) < k || (blen - k
                        <= wrap(x - start, n as int) < blen) {
                        f[wrap(start + blen - 1 - wrap(x - start, n as int), n as int)]
                    } else {
                        f[x]
                    },
            decreases h - k,
        {
            let pa = if k < n - start {
                start + k
            } else {
                k - (n - start)
            };
            let e = blen - 1 - k;
            let pb = if e < n - start {
                start + e
            } else {
                e - (n - start)
            };
            let n1 = self.nodes[pa];
            let n2 = self.nodes[pb];
            self.swap_at(n1, n2);
            k = k + 1;
        }
        proof {
            assert(self.nodes@ =~= rev_block(f, start as int, blen as int));
        }
    }

    /// `flip_at` on the nodes that handles stand for.
    pub fn flip(&mut self, from_a: &TourNode, to_a: &TourNode, from_b: &TourNode, to_b: &TourNode)
        requires
            old(self).wf(),
            two_arcs(old(self)@, from_a.index_spec(), to_a.index_spec(), from_b.index_spec(), to_b.index_spec()),
        ensures
            final(self).wf(),
            flipped(old(self)@, final(self)@, from_a.index_spec(), to_a.index_spec(), from_b.index_spec(), to_b.index_spec()),
            final(self)@ == flip_result(
                old(self)@,
                old(self).flip_turns(from_a.index_spec(), to_a.index_spec(), from_b.index_spec(), to_b.index_spec()),
                from_a.index_spec(),
                to_a.index_spec(),
                from_b.index_spec(),
                to_b.index_spec(),
            ),
            old(self).flip_leaves(*final(self), from_a.index_spec(), to_a.index_spec(), from_b.index_spec(), to_b.index_spec()),
            path_len(old(self)@, to_a.index_spec(), from_b.index_spec()) < path_len(
                old(self)@,
                to_b.index_spec(),
                from_a.index_spec(),
            ) ==> final(self)@ == rev_path(old(self)@, to_a.index_spec(), from_b.index_spec()),
            path_len(old(self)@, to_b.index_spec(), from_a.index_spec()) < path_len(
                old(self)@,
                to_a.index_spec(),
                from_b.index_spec(),
            ) ==> final(self)@ == rev_path(old(self)@, to_b.index_spec(), from_a.index_spec()),
            final(self).flags() == old(self).flags(),
            final(self).cands() == old(self).cands(),
    {
        self.flip_at(from_a.index(), to_a.index(), from_b.index(), to_b.index())
    }

    /// Rearranges the tour into the given order, which must name nodes of
    /// the tour. The global direction is reset first; an order of another
    /// length is refused. Step `k` brings node `order[k]` to place `k` of the
    /// stored order, by exchanging it with the node there, and clears its
    /// visited flag; for an order that lists every node once, the tour is
    /// then that order and no node is visited.
    pub fn apply(&mut self, tour: &TourOrder) -> (r: Result<(), UpdateTourError>)
        requires
            old(self).wf(),
            tour@.len() == old(self)@.len() ==> forall|i: int| 0 <= i < tour@.len() ==> #[trigger] tour@[i] < tour@.len(),
        ensures
            final(self).wf(),
            final(self).cands() == old(self).cands(),
            tour@.len() != old(self)@.len() ==> r == Err::<(), UpdateTourError>(
                UpdateTourError::TourLenMismatched { expected: old(self)@.len() as usize, received: tour@.len() as usize },
            ) && final(self)@ == (if old(self).is_reversed() {
                reversed(old(self)@)
            } else {
                old(self)@
            }) && final(self).flags() == old(self).flags(),
            !final(self).is_reversed(),
            tour@.len() == old(self)@.len() ==> r is Ok && final(self)@ == swap_steps(
                if old(self).is_reversed() {
                    reversed(old(self)@)
                } else {
                    old(self)@
                },
                tour@,
                tour@.len(),
            ) && final(self).flags() == clear_steps(old(self).flags(), tour@, tour@.len()),
            is_perm(tour@, old(self)@.len()) ==> r is Ok && final(self)@ == tour@ && final(self).flags() == Seq::new(
                old(self)@.len(),
                |i: int| false,
            ),
    {
        let order = tour.order();
        let len = self.nodes.len();
        self.rev = false;
        proof {
            assert(reversed(reversed(self.nodes@)) =~= self.nodes@);
            assert(self.flags() == old(self).flags());
            assert(self.cands() == old(self).cands());
        }
        if order.len() != len {
            return Err(UpdateTourError::TourLenMismatched { expected: len, received: order.len() });
        }
        let ghost st0 = self.nodes@;
        let ghost fl0 = self.visited@;
        let mut ii: usize = 0;
        while ii < len
            invariant
                self.wf(),
                self.nodes.len() == len,
                order@.len() == len,
                !self.rev,
                self.candidates == old(self).candidates,
                forall|i: int| 0 <= i < len ==> #[trigger] order@[i] < len,
                ii <= len,
                self.nodes@ == swap_steps(st0, order@, ii as nat),
                self.visited@ == clear_steps(fl0, order@, ii as nat),
                is_perm(order@, len as nat) ==> forall|k: int| 0 <= k < ii ==> #[trigger] self.nodes[k] == order[k],
                is_perm(order@, len as nat) ==> forall|k: int| 0 <= k < ii ==> !#[trigger] self.visited[order[k] as int],
            decreases len - ii,
        {
            let target = order[ii];
            let current = self.nodes[ii];
            let ghost nd = self.nodes@;
            proof {
                lemma_inverse_perms_tour(self.nodes@, self.tracker@);
                let p = self.tracker[target as int] as int;
                assert(self.nodes[p] == target);
                assert(self.tracker[current as int] == ii);
                assert(pos_of(nd, target) == p);
                if is_perm(order@, len as nat) && p < ii {
                    assert(order[p] == target);
                }
            }
            self.swap_at(target, current);
            self.visited.set(target, false);
            ii = ii + 1;
            proof {
                assert(self.nodes@ =~= swap_steps(st0, order@, ii as nat));
                assert(self.visited@ =~= clear_steps(fl0, order@, ii as nat));
            }
        }
        proof {
            if is_perm(order@, len as nat) {
                assert(self.nodes@ =~= order@);
                assert forall|v: int| 0 <= v < len implies !self.visited[v] by {
                    let p = self.tracker[v] as int;
                    assert(self.nodes[p] == v);
                }
                assert(self.flags() =~= Seq::new(len as nat, |i: int| false));
            }
        }
        Ok(())
    }

    /// Returns the node order of the tour as the array stores it: the tour
    /// in its forward direction, or backwards when it is reversed.
    pub fn tour_order(&self) -> (r: TourOrder)
        requires
            self.wf(),
        ensures
            r@ == (if self.is_reversed() {
                reversed(self@)
            } else {
                self@
            }),
    {
        let len = self.nodes.len();
        let mut result: Vec<usize> = Vec::with_capacity(len);
        let mut i: usize = 0;
        while i < len
            invariant
                self.wf(),
                len == self.nodes.len(),
                i <= len,
                result@ == self.nodes@.subrange(0, i as int),
            decreases len - i,
        {
            result.push(self.nodes[i]);
            i = i + 1;
            proof {
                assert(result@ =~= self.nodes@.subrange(0, i as int));
            }
        }
        proof {
            assert(result@ =~= self.nodes@);
            assert(reversed(reversed(self.nodes@)) =~= self.nodes@);
        }
        TourOrder::with_ord(result)
    }

    /// Clears the visited flag of every node.
    pub fn reset(&mut self)
        requires
            old(self).wf(),
        ensures
            final(self).wf(),
            final(self)@ == old(self)@,
            final(self).flags() == Seq::new(old(self)@.len(), |i: int| false),
            final(self).cands() == old(self).cands(),
    {
        let len = self.visited.len();
        let mut i: usize = 0;
        while i < len
            invariant
                self.wf(),
                len == self.visited.len(),
                i <= len,
                self.nodes == old(self).nodes,
                self.tracker == old(self).tracker,
                self.rev == old(self).rev,
                self.candidates == old(self).candidates,
                forall|k: int| 0 <= k < i ==> self.visited[k] == false,
            decreases len - i,
        {
            self.visited.set(i, false);
            i = i + 1;
        }
        proof {
            assert(self.flags() =~= Seq::new(old(self)@.len(), |i: int| false));
        }
    }

    /// Sets the visited flag of a node; nothing happens for an index off the tour.
    pub fn set_visited(&mut self, node_idx: usize, flag: bool)
        requires
            old(self).wf(),
        ensures
            final(self).wf(),
            final(self)@ == old(self)@,
            final(self).flags() == if node_idx < old(self)@.len() {
                old(self).flags().update(node_idx as int, flag)
            } else {
                old(self).flags()
            },
            final(self).cands() == old(self).cands(),
    {
        if node_idx < self.visited.len() {
            self.visited.set(node_idx, flag);
        }
    }

    /// Returns the visited flag of a node; false for an index off the tour.
    pub fn is_visited(&self, node_idx: usize) -> (r: bool)
        requires
            self.wf(),
        ensures
            r == (node_idx < self@.len() && self.flags()[node_idx as int]),
    {
        node_idx < self.visited.len() && self.visited[node_idx]
    }

    /// Replaces the candidate list of a node; nothing happens for an index off the tour.
    pub fn set_candidates(&mut self, node_idx: usize, candidates: Vec<TourNode>)
        requires
            old(self).wf(),
        ensures
            final(self).wf(),
            final(self)@ == old(self)@,
            final(self).flags() == old(self).flags(),
            final(self).cands() == if node_idx < old(self)@.len() {
                old(self).cands().update(node_idx as int, candidates@)
            } else {
                old(self).cands()
            },
    {
        if node_idx < self.candidates.len() {
            let ghost c = candidates@;
            self.candidates.set(node_idx, candidates);
            proof {
                assert(self.cands() =~= old(self).cands().update(node_idx as int, c));
            }
        }
    }

    /// The candidate list of a node.
    pub fn candidates(&self, node_idx: usize) -> (r: &Vec<TourNode>)
        requires
            self.wf(),
            node_idx < self@.len(),
        ensures
            r@ == self.cands()[node_idx as int],
    {
        &self.candidates[node_idx]
    }
}

} // verus!
