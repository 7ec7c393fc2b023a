use cykl::tour::{between, Array, NodeRel, Tour, TourImpltor, TourNode, TourOrder, TwoLevelList, UpdateTourError};

fn order_of(v: Vec<usize>) -> TourOrder {
    TourOrder::with_ord(v)
}

fn ranges(parts: &[(usize, usize, bool)]) -> Vec<usize> {
    let mut v = Vec::new();
    for &(lo, hi, backwards) in parts {
        if backwards {
            v.extend((lo..hi).rev());
        } else {
            v.extend(lo..hi);
        }
    }
    v
}

fn expect_tour_order(tour: &impl Tour, expected: &TourOrder) {
    let expected = expected.order();
    let len = expected.len();

    assert_eq!(tour.len(), len, "Test tour len");

    for ii in 0..(expected.len() - 1) {
        assert_eq!(
            tour.get(expected[(len + ii - 1) % len]),
            tour.predecessor_at(expected[ii]),
            "Test predecessor at index = {}",
            ii
        );
        assert_eq!(
            tour.get(expected[(ii + 1) % len]),
            tour.successor_at(expected[ii]),
            "Test successor at index = {}",
            ii
        );
    }
}

fn suite_apply(tour: &mut impl Tour) {
    let expected = order_of(vec![3, 0, 4, 1, 6, 8, 7, 9, 5, 2]);
    assert!(tour.apply(&expected).is_ok());
    expect_tour_order(tour, &expected);
}

fn suite_between(tour: &mut impl Tour) {
    assert_eq!(10, tour.len());
    assert!(tour.apply(&order_of((0..10).collect())).is_ok());

    assert!(tour.between_at(0, 1, 2));
    assert!(!tour.between_at(0, 2, 1));
    assert!(!tour.between_at(2, 1, 0));
    assert!(tour.between_at(2, 0, 1));

    assert!(tour.between_at(2, 3, 7));
    assert!(!tour.between_at(2, 7, 3));
    assert!(!tour.between_at(7, 3, 2));
    assert!(tour.between_at(7, 2, 3));

    assert!(tour.between_at(3, 5, 8));
    assert!(!tour.between_at(3, 8, 5));
    assert!(!tour.between_at(8, 5, 3));
    assert!(tour.between_at(8, 3, 5));

    assert!(tour.between_at(3, 4, 5));
    assert!(!tour.between_at(5, 4, 3));

    tour.flip_at(2, 3, 5, 6);

    assert!(!tour.between_at(3, 4, 5));
    assert!(tour.between_at(5, 4, 3));

    assert!(!tour.between_at(3, 5, 8));
    assert!(tour.between_at(3, 8, 5));
    assert!(tour.between_at(8, 5, 3));
    assert!(!tour.between_at(8, 3, 5));
}

fn flip_1(tour: &mut impl Tour) {
    let n_nodes = 100;
    assert_eq!(n_nodes, tour.len());
    assert!(tour.apply(&order_of((0..n_nodes).collect())).is_ok());

    tour.flip_at(3, 4, 8, 9);
    let mut expected = vec![0, 1, 2, 3, 8, 7, 6, 5, 4, 9];
    expected.extend(10..n_nodes);
    expect_tour_order(tour, &order_of(expected));

    tour.flip_at(3, 8, 4, 9);
    expect_tour_order(tour, &order_of((0..n_nodes).collect()));

    tour.flip_at(8, 9, 3, 4);
    let mut expected = vec![0, 1, 2, 3, 8, 7, 6, 5, 4, 9];
    expected.extend(10..n_nodes);
    expect_tour_order(tour, &order_of(expected));

    tour.flip_at(4, 9, 3, 8);
    let mut expected = vec![0, 1, 2, 3, 4, 5, 6, 7, 8, 9];
    expected.extend(10..n_nodes);
    expect_tour_order(tour, &order_of(expected));

    tour.flip_at(9, 10, 19, 20);
    expect_tour_order(tour, &order_of(ranges(&[(0, 10, false), (10, 20, true), (20, n_nodes, false)])));

    tour.flip_at(10, 20, 9, 19);
    expect_tour_order(tour, &order_of((0..n_nodes).collect()));
}

fn flip_2(tour: &mut impl Tour) {
    let n_nodes = 100;
    assert_eq!(n_nodes, tour.len());
    assert!(tour.apply(&order_of((0..n_nodes).collect())).is_ok());

    tour.flip_at(9, 10, 39, 40);
    expect_tour_order(tour, &order_of(ranges(&[(0, 10, false), (10, 40, true), (40, n_nodes, false)])));

    tour.flip_at(10, 40, 9, 39);
    expect_tour_order(tour, &order_of((0..n_nodes).collect()));

    tour.flip_at(29, 30, 9, 10);
    expect_tour_order(tour, &order_of(ranges(&[(0, 10, false), (10, 30, true), (30, n_nodes, false)])));

    tour.flip_at(9, 29, 10, 30);
    expect_tour_order(tour, &order_of((0..n_nodes).collect()));
}

fn flip_3(tour: &mut impl Tour) {
    let n_nodes = 100;
    assert_eq!(n_nodes, tour.len());
    assert!(tour.apply(&order_of((0..n_nodes).collect())).is_ok());

    let expected = ranges(&[(90, n_nodes, true), (10, 90, false), (0, 10, true)]);
    tour.flip_at(9, 10, 89, 90);
    expect_tour_order(tour, &order_of(expected));

    tour.flip_at(90, 10, 89, 9);
    expect_tour_order(tour, &order_of((0..n_nodes).collect()));

    let expected = ranges(&[(90, n_nodes, true), (10, 90, false), (0, 10, true)]);
    tour.flip_at(89, 90, 9, 10);
    expect_tour_order(tour, &order_of(expected));

    tour.flip_at(89, 9, 90, 10);
    expect_tour_order(tour, &order_of((0..n_nodes).collect()));

    tour.flip_at(79, 80, 89, 90);
    tour.flip_at(9, 10, 79, 89);

    let expected = ranges(&[(80, 90, false), (10, 80, false), (0, 10, true), (90, n_nodes, true)]);
    expect_tour_order(tour, &order_of(expected));
}

fn flip_4(tour: &mut impl Tour) {
    let n_nodes = 100;
    assert_eq!(n_nodes, tour.len());
    let order0 = order_of((0..n_nodes).collect());
    assert!(tour.apply(&order0).is_ok());
    expect_tour_order(tour, &order0);

    flip_4_d1_forward_move_back(tour);
    flip_4_d1_reverse_move_front(tour);
    flip_4_d2_forward_move_front(tour);
    flip_4_d2_reverse_move_back(tour);
}

fn flip_4_d1_forward_move_back(tour: &mut impl Tour) {
    let n = tour.len();
    assert!(tour.apply(&order_of((0..n).collect())).is_ok());
    expect_tour_order(tour, &order_of((0..n).collect()));

    tour.flip_at(59, 60, 69, 70);
    tour.flip_at(33, 34, 72, 73);

    let expected = ranges(&[(0, 34, false), (70, 73, true), (60, 70, false), (34, 60, true), (73, n, false)]);
    expect_tour_order(tour, &order_of(expected));
}

fn flip_4_d1_reverse_move_front(tour: &mut impl Tour) {
    let n = tour.len();
    assert!(tour.apply(&order_of((0..n).collect())).is_ok());
    expect_tour_order(tour, &order_of((0..n).collect()));

    tour.flip_at(29, 30, 39, 40);
    tour.flip_at(59, 60, 69, 70);
    tour.flip_at(60, 70, 79, 80);
    tour.flip_at(34, 33, 63, 62);

    let expected = ranges(&[
        (0, 30, false),
        (34, 40, true),
        (63, 70, false),
        (40, 60, true),
        (30, 34, false),
        (60, 63, true),
        (70, 80, true),
        (80, n, false),
    ]);
    expect_tour_order(tour, &order_of(expected));
}

fn flip_4_d2_forward_move_front(tour: &mut impl Tour) {
    let n = tour.len();
    assert!(tour.apply(&order_of((0..n).collect())).is_ok());
    expect_tour_order(tour, &order_of((0..n).collect()));

    tour.flip_at(69, 70, 79, 80);
    tour.flip_at(36, 37, 67, 68);

    let expected = ranges(&[(0, 37, false), (37, 68, true), (68, 70, false), (70, 80, true), (80, n, false)]);
    expect_tour_order(tour, &order_of(expected));
}

fn flip_4_d2_reverse_move_back(tour: &mut impl Tour) {
    let n = tour.len();
    assert!(tour.apply(&order_of((0..n).collect())).is_ok());
    expect_tour_order(tour, &order_of((0..n).collect()));

    tour.flip_at(29, 30, 39, 40);
    tour.flip_at(69, 70, 79, 80);
    tour.flip_at(59, 60, 69, 79);
    tour.flip_at(37, 36, 68, 67);

    let expected = ranges(&[
        (0, 30, false),
        (37, 40, true),
        (68, 70, false),
        (40, 60, true),
        (30, 37, false),
        (60, 68, true),
        (70, 80, true),
        (80, n, false),
    ]);
    expect_tour_order(tour, &order_of(expected));
}

fn suite_flip(tour: &mut impl Tour) {
    flip_1(tour);
    flip_2(tour);
    flip_3(tour);
    flip_4(tour);
}

#[test]
fn test_between() {
    // 1 -> 2 -> 3 -> 4 -> 5
    assert!(between(1, 3, 4));
    assert!(!between(1, 5, 4));
    assert!(between(5, 1, 3));
    assert!(!between(5, 3, 1));
}

#[test]
fn test_apply() {
    let mut tour = Array::new(10);
    suite_apply(&mut tour);
}

#[test]
fn tests_test_apply() {
    let mut tour = TwoLevelList::new(10, 4);
    suite_apply(&mut tour);
}

#[test]
fn tests_test_between() {
    let mut tour = TwoLevelList::new(10, 3);
    suite_between(&mut tour);
}

#[test]
fn test_flip_cases() {
    let mut tour = TwoLevelList::new(100, 10);
    suite_flip(&mut tour);
}

#[test]
fn array_between_suite() {
    let mut tour = Array::new(10);
    suite_between(&mut tour);
}

#[test]
fn array_flip_suite() {
    let mut tour = Array::new(100);
    suite_flip(&mut tour);
}

#[test]
fn between_walks_are_exclusive() {
    for a in 0..6usize {
        for b in 0..6usize {
            for c in 0..6usize {
                if a != b && b != c && a != c {
                    assert_ne!(between(a, b, c), between(c, b, a));
                }
            }
        }
    }
    assert!(between(4, 4, 2));
    assert!(between(4, 2, 2));
}

#[test]
fn apply_reports_wrong_length() {
    let mut tour = TwoLevelList::new(5, 2);
    let r = tour.apply(&order_of(vec![0, 1, 2]));
    assert_eq!(r, Err(UpdateTourError::TourLenMismatched { expected: 5, received: 3 }));
    let mut arr = Array::new(4);
    let r = arr.apply(&order_of(vec![0, 1, 2, 3, 0]));
    assert_eq!(r, Err(UpdateTourError::TourLenMismatched { expected: 4, received: 5 }));
}

#[test]
fn apply_reports_invalid_order() {
    let mut tour = TwoLevelList::new(5, 2);
    assert!(tour.apply(&order_of(vec![4, 3, 2, 1, 0])).is_ok());
    let r = tour.apply(&order_of(vec![0, 1, 2, 2, 4]));
    assert_eq!(r, Err(UpdateTourError::InvalidTourOrder));
    // The tour stays as it was.
    expect_tour_order(&tour, &order_of(vec![4, 3, 2, 1, 0]));
}

#[test]
fn array_apply_exchanges_node_by_node() {
    // An order that names node 1 twice: the array brings each named node to
    // its place in turn, so the last step exchanges nodes 1 and 2 again.
    let mut arr = Array::new(3);
    assert!(arr.apply(&order_of(vec![0, 1, 1])).is_ok());
    assert_eq!(arr.tour_order().order(), &vec![0, 2, 1]);
}

#[test]
fn apply_then_tour_order() {
    let order = vec![2, 0, 4, 1, 3, 6, 5];
    let mut arr = Array::new(7);
    assert!(arr.apply(&order_of(order.clone())).is_ok());
    assert_eq!(arr.tour_order().order(), &order);
    let mut tll = TwoLevelList::new(7, 3);
    assert!(tll.apply(&order_of(order.clone())).is_ok());
    // Read from node 0 on.
    assert_eq!(tll.tour_order().order(), &vec![0, 4, 1, 3, 6, 5, 2]);
}

#[test]
fn rev_twice_gives_the_tour_back() {
    let order = vec![3, 1, 4, 0, 2, 5];
    let mut tll = TwoLevelList::new(6, 4);
    assert!(tll.apply(&order_of(order.clone())).is_ok());
    tll.rev();
    assert_eq!(tll.successor_at(3), tll.get(5));
    assert_eq!(tll.predecessor_at(3), tll.get(1));
    tll.rev();
    expect_tour_order(&tll, &order_of(order.clone()));
    let mut arr = Array::new(6);
    assert!(arr.apply(&order_of(order.clone())).is_ok());
    arr.rev();
    // The array hands out its nodes as it stores them.
    assert_eq!(arr.tour_order().order(), &order);
    assert_eq!(arr.successor_at(3), arr.get(5));
    assert_eq!(arr.predecessor_at(3), arr.get(1));
    arr.rev();
    assert_eq!(arr.tour_order().order(), &order);
}

#[test]
fn successor_and_predecessor_undo_each_other() {
    let mut tll = TwoLevelList::new(9, 2);
    assert!(tll.apply(&order_of(vec![8, 6, 4, 2, 0, 1, 3, 5, 7])).is_ok());
    for v in 0..9 {
        let s = tll.successor_at(v).unwrap();
        assert_eq!(tll.predecessor(&s), tll.get(v));
        let p = tll.predecessor_at(v).unwrap();
        assert_eq!(tll.successor(&p), tll.get(v));
    }
    assert_eq!(tll.successor_at(9), None);
    assert_eq!(tll.get(9), None);
}

#[test]
fn relation_of_neighbours() {
    let mut arr = Array::new(5);
    assert!(arr.apply(&order_of(vec![0, 1, 2, 3, 4])).is_ok());
    let (n0, n1, n3) = (TourNode::new(0), TourNode::new(1), TourNode::new(3));
    assert_eq!(arr.relation(&n0, &n1), NodeRel::Predecessor);
    assert_eq!(arr.relation(&n1, &n0), NodeRel::Successor);
    assert_eq!(arr.relation(&n0, &n3), NodeRel::Neither);
    let mut tll = TwoLevelList::new(5, 2);
    tll.rev();
    assert_eq!(tll.relation(&n0, &n1), NodeRel::Successor);
    assert_eq!(tll.relation(&n1, &n0), NodeRel::Predecessor);
}

#[test]
fn flip_twice_restores_two_level_list() {
    let mut tll = TwoLevelList::new(12, 4);
    tll.flip_at(1, 2, 7, 8);
    // The arcs (1, 7) and (2, 8) now stand in the tour.
    assert!(tll.successor_at(1) == tll.get(7) || tll.successor_at(7) == tll.get(1));
    assert!(tll.successor_at(2) == tll.get(8) || tll.successor_at(8) == tll.get(2));
    if tll.successor_at(1) == tll.get(7) {
        tll.flip_at(1, 7, 2, 8);
    } else {
        tll.flip_at(7, 1, 8, 2);
    }
    let forward = (0..12).all(|v| tll.successor_at(v) == tll.get((v + 1) % 12));
    let backward = (0..12).all(|v| tll.successor_at((v + 1) % 12) == tll.get(v));
    assert!(forward || backward);
}

#[test]
fn visited_flags_and_candidates() {
    let mut tll = TwoLevelList::new(4, 2);
    assert!(!tll.is_visited(2));
    tll.set_visited(2, true);
    assert!(tll.is_visited(2));
    assert!(!tll.is_visited(7));
    tll.set_candidates(1, vec![TourNode::new(3), TourNode::new(0)]);
    assert_eq!(tll.candidates(1), &vec![TourNode::new(3), TourNode::new(0)]);
    tll.reset();
    assert!(!tll.is_visited(2));
    let mut arr = Array::new(3);
    arr.set_visited(0, true);
    assert!(arr.is_visited(0));
    arr.reset();
    assert!(!arr.is_visited(0));
}

#[test]
fn impltor_dispatches() {
    let mut t = TourImpltor::from(TwoLevelList::new(6, 2));
    assert_eq!(t.len(), 6);
    t.flip_at(0, 1, 3, 4);
    assert!(t.successor_at(0) == t.get(3) || t.successor_at(3) == t.get(0));
    assert!(t.successor_at(1) == t.get(4) || t.successor_at(4) == t.get(1));
    let mut a = TourImpltor::from(Array::new(6));
    a.flip_at(0, 1, 3, 4);
    assert!(a.successor_at(0) == a.get(3) || a.successor_at(3) == a.get(0));
    assert_eq!(Tour::tour_order(&a).len(), 6);
}

#[test]
fn tour_order_constructors() {
    assert_eq!(TourOrder::with_nat_ord(4).order(), &vec![0, 1, 2, 3]);
    assert_eq!(TourOrder::new().len(), 0);
    assert_eq!(TourOrder::with_capacity(5).len(), 0);
    let mut o = TourOrder::default();
    o.add(7);
    o.add(2);
    assert_eq!(o.order(), &vec![7, 2]);
}

#[test]
fn empty_and_single_node_tours() {
    let mut tll = TwoLevelList::new(0, 3);
    assert_eq!(tll.len(), 0);
    assert!(tll.is_empty());
    assert_eq!(tll.get(0), None);
    assert_eq!(tll.successor_at(0), None);
    assert!(!tll.between_at(0, 0, 0));
    assert!(tll.apply(&order_of(vec![])).is_ok());
    assert_eq!(tll.tour_order().len(), 0);
    let mut arr = Array::new(0);
    assert_eq!(arr.len(), 0);
    assert!(arr.apply(&order_of(vec![])).is_ok());

    let one = TwoLevelList::new(1, 5);
    assert_eq!(one.successor_at(0), one.get(0));
    assert_eq!(one.predecessor_at(0), one.get(0));
    assert!(one.between_at(0, 0, 0));
    let arr1 = Array::new(1);
    assert_eq!(arr1.successor_at(0), arr1.get(0));
}

#[test]
fn array_flip_reverses_the_shorter_path() {
    let mut arr = Array::new(10);
    // The path 3 .. 4 holds two nodes, the path 5 .. 2 eight.
    arr.flip_at(2, 3, 4, 5);
    assert_eq!(arr.tour_order().order(), &vec![0, 1, 2, 4, 3, 5, 6, 7, 8, 9]);
    let mut arr = Array::new(10);
    // The path 2 .. 7 holds six nodes, the path 8 .. 1 four.
    arr.flip_at(1, 2, 7, 8);
    let forward = arr.successor_at(1) == arr.get(7) && arr.successor_at(2) == arr.get(8);
    let backward = arr.successor_at(7) == arr.get(1) && arr.successor_at(8) == arr.get(2);
    assert!(backward && !forward);
    for v in [3usize, 4, 5, 6] {
        assert_eq!(arr.successor_at(v), arr.get(v + 1));
    }
}

#[test]
fn two_level_flip_off_the_tour_changes_nothing() {
    let mut tll = TwoLevelList::new(10, 3);
    tll.flip_at(1, 2, 10, 11);
    tll.flip_at(12, 2, 5, 6);
    assert_eq!(tll.tour_order().order(), &(0..10).collect::<Vec<usize>>());
}

#[test]
fn two_level_flip_reverses_the_path_inside_a_segment() {
    // Segments {0 1 2 3 4}, {5 6 7 8 9}; the path 6 .. 8 lies inside the
    // second one, although the path 9 .. 5 is the longer one.
    let mut tll = TwoLevelList::new(10, 5);
    tll.flip_at(5, 6, 8, 9);
    assert_eq!(tll.tour_order().order(), &vec![0, 1, 2, 3, 4, 5, 8, 7, 6, 9]);
    // Segments of 2 nodes: cutting at the arcs (0, 1) and (8, 9) moves node
    // 0 behind 9 and node 8 into the segment before, so the path 9 .. 0
    // then lies inside one segment and is the one reversed.
    let mut tll = TwoLevelList::new(10, 2);
    tll.flip_at(0, 1, 8, 9);
    assert_eq!(tll.successor_at(8), tll.get(0));
    assert_eq!(tll.successor_at(0), tll.get(9));
    assert_eq!(tll.successor_at(9), tll.get(1));
    assert_eq!(tll.successor_at(1), tll.get(2));
}

#[test]
fn array_flip_tie_reverses_the_stored_block() {
    // Both paths hold two nodes: the block 1 .. 2 that the array stores
    // without wrapping is reversed.
    let mut arr = Array::new(4);
    arr.flip_at(0, 1, 2, 3);
    assert_eq!(arr.tour_order().order(), &vec![0, 2, 1, 3]);
    // Reversed, the tour reads 0 3 2 1; the stored block is then 2 .. 3.
    let mut arr = Array::new(4);
    arr.rev();
    arr.flip_at(0, 3, 2, 1);
    assert_eq!(arr.successor_at(0), arr.get(2));
    assert_eq!(arr.successor_at(2), arr.get(3));
    assert_eq!(arr.successor_at(3), arr.get(1));
    assert_eq!(arr.successor_at(1), arr.get(0));
}

#[test]
fn apply_resets_the_direction_even_when_refused() {
    let mut tll = TwoLevelList::new(5, 2);
    tll.rev();
    assert_eq!(tll.successor_at(1), tll.get(0));
    assert!(tll.apply(&order_of(vec![0, 1])).is_err());
    assert_eq!(tll.successor_at(0), tll.get(1));
    let mut arr = Array::new(5);
    arr.rev();
    assert_eq!(arr.successor_at(1), arr.get(0));
    assert!(arr.apply(&order_of(vec![0, 1, 2])).is_err());
    assert_eq!(arr.successor_at(0), arr.get(1));
}
