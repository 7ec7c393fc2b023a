use vstd::prelude::*;

use crate::tour::cycle::is_perm;
use crate::tour::{Tour, TourOrder, UpdateTourError};

verus! {

/// Arranges the tour in the natural order `0, 1, .., len - 1`.
pub fn init_tour<T: Tour>(tour: &mut T) -> (r: Result<(), UpdateTourError>)
    requires
        old(tour).valid(),
    ensures
        final(tour).valid(),
        r is Ok,
        final(tour).tour_view() == Seq::new(old(tour).tour_view().len(), |i: int| i as usize),
        final(tour).visited_flags() == Seq::new(old(tour).tour_view().len(), |i: int| false),
        final(tour).cand_lists() == old(tour).cand_lists(),
{
    let n = tour.len();
    let order = TourOrder::with_nat_ord(n);
    proof {
        let o = order@;
        assert forall|i: int, j: int| 0 <= i < n && 0 <= j < n && i != j implies o[i] != o[j] by {}
        assert(is_perm(o, n as nat));
    }
    tour.apply(&order)
}

} // verus!
