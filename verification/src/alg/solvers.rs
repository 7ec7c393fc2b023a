//! Decisions of the greedy tour construction.
use vstd::prelude::*;

use crate::tour::cycle::is_perm;
use crate::tour::{Tour, TourNode, UpdateTourError};

verus! {

/// The candidate handle stands for a node of the tour that is not visited yet.
pub open spec fn open_cand(flags: Seq<bool>, h: TourNode) -> bool {
    h.inner is Some && h.index_spec() < flags.len() && !flags[h.index_spec() as int]
}

/// A candidate can be taken exactly when it stands for a node of the tour
/// that is not visited yet: any such node, the last one of the tour
/// included, and nothing else (not the empty handle, not an index off the
/// tour).
pub proof fn law_open_cand(flags: Seq<bool>, h: TourNode, v: usize)
    ensures
        v < flags.len() ==> (open_cand(flags, TourNode::at(v)) == !flags[v as int]),
        h.inner is None ==> !open_cand(flags, h),
        h.inner == Some(v) && v >= flags.len() ==> !open_cand(flags, h),
{
}

/// The next node of a greedy tour, if a candidate gives one: the first
/// candidate of `node` that stands for a node not visited yet. `None` when
/// no candidate does; the tour is then continued to the nearest node that
/// is not visited yet.
pub fn first_open_candidate<T: Tour>(tour: &T, node: usize) -> (r: Option<usize>)
    requires
        tour.valid(),
        node < tour.tour_view().len(),
    ensures
        ({
            let cs = tour.cand_lists()[node as int];
            let fl = tour.visited_flags();
            &&& r is None <==> forall|k: int| 0 <= k < cs.len() ==> !#[trigger] open_cand(fl, cs[k])
            &&& r matches Some(v) ==> exists|k: int|
                0 <= k < cs.len() && #[trigger] open_cand(fl, cs[k]) && cs[k].index_spec() == v && forall|j: int|
                    0 <= j < k ==> !open_cand(fl, #[trigger] cs[j])
        }),
{
    proof {
        tour.lemma_valid();
    }
    let cs = tour.candidates(node);
    let n = tour.len();
    let mut i: usize = 0;
    while i < cs.len()
        invariant
            tour.valid(),
            cs@ == tour.cand_lists()[node as int],
            n == tour.tour_view().len(),
            tour.visited_flags().len() == n,
            i <= cs.len(),
            forall|j: int| 0 <= j < i ==> !open_cand(tour.visited_flags(), #[trigger] cs@[j]),
        decreases cs.len() - i,
    {
        let h = cs[i];
        match h.inner {
            Some(v) => {
                if v < n && !tour.is_visited(v) {
                    proof {
                        assert(open_cand(tour.visited_flags(), cs@[i as int]));
                    }
                    return Some(v);
                }
            },
            None => {},
        }
        i = i + 1;
    }
    None
}

/// The walk `w` of a greedy tour so far: no node twice, every node on the
/// tour, and the visited nodes are exactly the nodes of the walk.
pub open spec fn walk_ok(flags: Seq<bool>, w: Seq<usize>) -> bool {
    &&& w.no_duplicates()
    &&& forall|i: int| 0 <= i < w.len() ==> #[trigger] w[i] < flags.len()
    &&& forall|v: int| 0 <= v < flags.len() ==> (#[trigger] flags[v] <==> w.contains(v as usize))
}

/// Starts a greedy walk at `starter`: every visited flag is cleared, then
/// the starter is marked visited and is the walk. `NodeNotFound` when the
/// starter is not a node of the tour.
pub fn begin_walk<T: Tour>(tour: &mut T, starter: usize) -> (r: Result<Vec<usize>, UpdateTourError>)
    requires
        old(tour).valid(),
    ensures
        final(tour).valid(),
        final(tour).tour_view() == old(tour).tour_view(),
        final(tour).cand_lists() == old(tour).cand_lists(),
        starter >= old(tour).tour_view().len() ==> r == Err::<Vec<usize>, UpdateTourError>(
            UpdateTourError::NodeNotFound,
        ) && final(tour).visited_flags() == Seq::new(old(tour).tour_view().len(), |i: int| false),
        starter < old(tour).tour_view().len() ==> (r matches Ok(w) && w@ == seq![starter]
            && final(tour).visited_flags() == Seq::new(old(tour).tour_view().len(), |i: int| false).update(
            starter as int,
            true,
        ) && walk_ok(final(tour).visited_flags(), w@)),
{
    tour.reset();
    proof {
        tour.lemma_valid();
    }
    if starter >= tour.len() {
        return Err(UpdateTourError::NodeNotFound);
    }
    tour.set_visited(starter, true);
    let w = vec![starter];
    proof {
        let fl = tour.visited_flags();
        assert(w@ =~= seq![starter]);
        assert forall|v: int| 0 <= v < fl.len() implies (#[trigger] fl[v] <==> w@.contains(v as usize)) by {
            if v == starter {
                assert(w@[0] == starter);
            }
        }
    }
    Ok(w)
}

/// Extends a greedy walk by the chosen next node, which is not visited
/// yet, and marks that node visited.
pub fn visit_next<T: Tour>(tour: &mut T, walk: &mut Vec<usize>, next: usize)
    requires
        old(tour).valid(),
        next < old(tour).tour_view().len(),
        !old(tour).visited_flags()[next as int],
        walk_ok(old(tour).visited_flags(), old(walk)@),
    ensures
        final(tour).valid(),
        final(tour).tour_view() == old(tour).tour_view(),
        final(tour).cand_lists() == old(tour).cand_lists(),
        final(tour).visited_flags() == old(tour).visited_flags().update(next as int, true),
        final(walk)@ == old(walk)@.push(next),
        walk_ok(final(tour).visited_flags(), final(walk)@),
{
    proof {
        tour.lemma_valid();
    }
    let n = tour.len();
    let ghost w0 = walk@;
    let ghost f0 = tour.visited_flags();
    tour.set_visited(next, true);
    walk.push(next);
    proof {
        let fl = tour.visited_flags();
        let w = walk@;
        assert(w == w0.push(next));
        assert(!w0.contains(next));
        assert forall|i: int, j: int| 0 <= i < w.len() && 0 <= j < w.len() && i != j implies w[i] != w[j] by {
            if i < w0.len() && j < w0.len() {
                assert(w0[i] != w0[j]);
            } else if i < w0.len() {
                assert(w0.contains(w0[i]));
            } else if j < w0.len() {
                assert(w0.contains(w0[j]));
            }
        }
        assert forall|v: int| 0 <= v < fl.len() implies (#[trigger] fl[v] <==> w.contains(v as usize)) by {
            if v == next {
                assert(w[w.len() - 1] == next);
            } else {
                assert(f0[v] == fl[v]);
                if w0.contains(v as usize) {
                    let i = choose|i: int| 0 <= i < w0.len() && w0[i] == v as usize;
                    assert(w[i] == v as usize);
                    assert(w.contains(v as usize));
                }
                if w.contains(v as usize) {
                    let i = choose|i: int| 0 <= i < w.len() && w[i] == v as usize;
                    assert(w[i] == v as usize);
                    assert(w.len() == w0.len() + 1);
                    assert(w[w0.len() as int] == next);
                    assert(i != w0.len());
                    assert(i < w0.len());
                    assert(w[i] == w0[i]);
                    assert(w0.contains(v as usize));
                }
            }
        }
    }
}

/// A greedy walk that has met as many nodes as the tour holds lists every
/// node once: it is a tour order.
pub proof fn law_full_walk(flags: Seq<bool>, w: Seq<usize>)
    requires
        walk_ok(flags, w),
        w.len() == flags.len(),
    ensures
        is_perm(w, flags.len()),
{
}

} // verus!
