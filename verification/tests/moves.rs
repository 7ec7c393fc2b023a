use cykl::alg::lkh::{move_2_opt, move_3_opt, move_4_opt, Opt3Move, Opt4SeqMove};
use cykl::tour::{Tour, TourImpltor, TourOrder, TwoLevelList};

fn ranges(parts: &[(usize, usize, bool)]) -> Vec<usize> {
    let mut v = Vec::new();
    for &(lo, hi, backwards) in parts {
        if backwards {
            v.extend((lo..hi).rev());
        } else {
            v.extend(lo..hi);
        }
    }
    v
}

fn expect_tour_order(tour: &impl Tour, expected: &TourOrder) {
    let expected = expected.order();
    let len = expected.len();

    assert_eq!(tour.len(), len, "Test tour len");

    for ii in 0..(expected.len() - 1) {
        assert_eq!(
            tour.get(expected[(len + ii - 1) % len]),
            tour.predecessor_at(expected[ii]),
            "Test predecessor at index = {}",
            ii
        );
        assert_eq!(
            tour.get(expected[(ii + 1) % len]),
            tour.successor_at(expected[ii]),
            "Test successor at index = {}",
            ii
        );
    }
}

fn tour_4(parts: &[(usize, usize, bool)]) -> TourOrder {
    let mut a: Vec<usize> = (0..=5).collect();
    a.extend(ranges(parts));
    a.extend(21..30);
    TourOrder::with_ord(a)
}

#[test]
fn test_move_2_opt() {
    let tour = TwoLevelList::new(20, 20);
    let mut tour = TourImpltor::from(tour);
    let (node1, node3) = (tour.get(5).unwrap(), tour.get(10).unwrap());
    let (node2, node4) = (tour.successor(&node1).unwrap(), tour.successor(&node3).unwrap());

    move_2_opt(&mut tour, &node1, &node2, &node3, &node4);
    let expected = TourOrder::with_ord(ranges(&[(0, 6, false), (6, 11, true), (11, 20, false)]));

    expect_tour_order(&tour, &expected);
}

#[test]
fn test_move_3_opt() {
    let tour = TwoLevelList::new(20, 20);
    let mut tour = TourImpltor::from(tour);
    let (f1, f2, f3) = (tour.get(5).unwrap(), tour.get(10).unwrap(), tour.get(15).unwrap());
    let (t1, t2, t3) =
        (tour.successor(&f1).unwrap(), tour.successor(&f2).unwrap(), tour.successor(&f3).unwrap());

    let nat_ord = TourOrder::with_nat_ord(20);

    move_3_opt(&mut tour, (&f1, &t1), (&f2, &t2), (&f3, &t3), Opt3Move::Move4);
    expect_tour_order(
        &tour,
        &TourOrder::with_ord(ranges(&[(0, 6, false), (11, 16, true), (6, 11, false), (16, 20, false)])),
    );

    assert!(tour.apply(&nat_ord).is_ok());
    move_3_opt(&mut tour, (&f1, &t1), (&f2, &t2), (&f3, &t3), Opt3Move::Move7);
    expect_tour_order(
        &tour,
        &TourOrder::with_ord(ranges(&[(0, 6, false), (11, 16, false), (6, 11, false), (16, 20, false)])),
    );
}

#[test]
fn test_move_4_opt() {
    let tour = TwoLevelList::new(30, 30);
    let mut tour = TourImpltor::from(tour);
    let (f1, f2, f3, f4) =
        (tour.get(5).unwrap(), tour.get(10).unwrap(), tour.get(15).unwrap(), tour.get(20).unwrap());
    let (t1, t2, t3, t4) = (
        tour.successor(&f1).unwrap(),
        tour.successor(&f2).unwrap(),
        tour.successor(&f3).unwrap(),
        tour.successor(&f4).unwrap(),
    );

    let nat_ord = TourOrder::with_nat_ord(30);

    let cases: Vec<(Opt4SeqMove, TourOrder)> = vec![
        (Opt4SeqMove::Move1, tour_4(&[(6, 11, true), (11, 16, true), (16, 21, true)])),
        (Opt4SeqMove::Move2, tour_4(&[(11, 16, false), (6, 11, false), (16, 21, true)])),
        (Opt4SeqMove::Move3, tour_4(&[(11, 16, false), (6, 11, true), (16, 21, true)])),
        (Opt4SeqMove::Move4, tour_4(&[(11, 16, true), (6, 11, false), (16, 21, true)])),
        (Opt4SeqMove::Move5, tour_4(&[(16, 21, false), (6, 11, false), (11, 16, true)])),
        (Opt4SeqMove::Move6, tour_4(&[(16, 21, false), (6, 11, true), (11, 16, false)])),
        (Opt4SeqMove::Move7, tour_4(&[(16, 21, true), (6, 11, false), (11, 16, true)])),
        (Opt4SeqMove::Move8, tour_4(&[(16, 21, true), (6, 11, true), (11, 16, false)])),
        (Opt4SeqMove::Move9, tour_4(&[(16, 21, true), (6, 11, true), (11, 16, true)])),
        (Opt4SeqMove::Move10, tour_4(&[(6, 11, true), (16, 21, false), (11, 16, false)])),
        (Opt4SeqMove::Move11, tour_4(&[(6, 11, true), (16, 21, false), (11, 16, true)])),
        (Opt4SeqMove::Move12, tour_4(&[(6, 11, true), (16, 21, true), (11, 16, false)])),
        (Opt4SeqMove::Move13, tour_4(&[(11, 16, false), (16, 21, true), (6, 11, false)])),
        (Opt4SeqMove::Move14, tour_4(&[(11, 16, false), (16, 21, true), (6, 11, true)])),
        (Opt4SeqMove::Move15, tour_4(&[(11, 16, true), (16, 21, false), (6, 11, false)])),
        (Opt4SeqMove::Move16, tour_4(&[(11, 16, true), (16, 21, false), (6, 11, true)])),
        (Opt4SeqMove::Move17, tour_4(&[(11, 16, true), (16, 21, true), (6, 11, true)])),
        (Opt4SeqMove::Move18, tour_4(&[(16, 21, false), (11, 16, false), (6, 11, true)])),
        (Opt4SeqMove::Move19, tour_4(&[(16, 21, false), (11, 16, true), (6, 11, false)])),
        (Opt4SeqMove::Move20, tour_4(&[(16, 21, true), (11, 16, false), (6, 11, false)])),
    ];

    for (mv, exp) in cases {
        assert!(tour.apply(&nat_ord).is_ok());
        move_4_opt(&mut tour, (&f1, &t1), (&f2, &t2), (&f3, &t3), (&f4, &t4), mv);
        expect_tour_order(&tour, &exp);
    }
}

#[test]
fn move_3_opt_all_cases_on_many_segments() {
    // The same moves on a list of several segments and on a reversed tour
    // give the documented cycles, walked one way or the other.
    let expected: Vec<(Opt3Move, Vec<usize>)> = vec![
        (Opt3Move::Move1, ranges(&[(0, 6, false), (6, 11, true), (11, 20, false)])),
        (Opt3Move::Move2, ranges(&[(0, 11, false), (11, 16, true), (16, 20, false)])),
        (Opt3Move::Move3, ranges(&[(0, 6, false), (11, 16, true), (6, 11, true), (16, 20, false)])),
        (Opt3Move::Move4, ranges(&[(0, 6, false), (11, 16, true), (6, 11, false), (16, 20, false)])),
        (Opt3Move::Move5, ranges(&[(0, 6, false), (6, 11, true), (11, 16, true), (16, 20, false)])),
        (Opt3Move::Move6, ranges(&[(0, 6, false), (11, 16, false), (6, 11, true), (16, 20, false)])),
        (Opt3Move::Move7, ranges(&[(0, 6, false), (11, 16, false), (6, 11, false), (16, 20, false)])),
    ];
    for (mv, exp) in expected {
        let mut tour = TwoLevelList::new(20, 3);
        let nodes: Vec<_> = [5usize, 6, 10, 11, 15, 16].iter().map(|&i| tour.get(i).unwrap()).collect();
        move_3_opt(&mut tour, (&nodes[0], &nodes[1]), (&nodes[2], &nodes[3]), (&nodes[4], &nodes[5]), mv);
        let mut back = exp.clone();
        back.reverse();
        let fwd = (0..20).all(|i| tour.successor_at(exp[i]) == tour.get(exp[(i + 1) % 20]));
        let bwd = (0..20).all(|i| tour.successor_at(back[i]) == tour.get(back[(i + 1) % 20]));
        assert!(fwd || bwd, "{:?}", mv);
    }
}

#[test]
fn move_4_opt_keeps_the_arcs_inside_the_paths() {
    // On a list of several segments every move keeps each arc (x, x + 1)
    // whose tail is not one of f1 .. f4; with paths of five nodes between
    // them, the four arcs (fi, ti) are gone.
    let f = [5usize, 10, 15, 20];
    for mv in [Opt4SeqMove::Move1, Opt4SeqMove::Move9, Opt4SeqMove::Move14, Opt4SeqMove::Move20] {
        let mut tour = TourImpltor::from(TwoLevelList::new(30, 4));
        let (f1, f2, f3, f4) =
            (tour.get(5).unwrap(), tour.get(10).unwrap(), tour.get(15).unwrap(), tour.get(20).unwrap());
        let (t1, t2, t3, t4) = (
            tour.successor(&f1).unwrap(),
            tour.successor(&f2).unwrap(),
            tour.successor(&f3).unwrap(),
            tour.successor(&f4).unwrap(),
        );
        move_4_opt(&mut tour, (&f1, &t1), (&f2, &t2), (&f3, &t3), (&f4, &t4), mv);
        for x in 0..30usize {
            let y = (x + 1) % 30;
            if f.contains(&x) {
                continue;
            }
            let joined = tour.successor_at(x) == tour.get(y) || tour.successor_at(y) == tour.get(x);
            assert!(joined, "arc ({}, {}) kept", x, y);
        }
        for x in f {
            let y = x + 1;
            let joined = tour.successor_at(x) == tour.get(y) || tour.successor_at(y) == tour.get(x);
            assert!(!joined, "arc ({}, {}) removed", x, y);
        }
    }
}
