use cykl::alg::lkh::KOpt;
use cykl::alg::solvers::{begin_walk, first_open_candidate, visit_next};
use cykl::alg::{init_tour, SolverKind};
use cykl::data::{GetIndex, Metric, NodeIndex};
use cykl::tour::{Array, Tour, TourNode, TourOrder, TwoLevelList, UpdateTourError};
use cykl::{MatrixKind, MetricKind, NodeKind, RunConfigBuilder};

#[test]
fn run_config_defaults() {
    let conf = RunConfigBuilder::new().build();
    assert_eq!(conf.cands, 10);
    assert_eq!(conf.solver, SolverKind::Greedy(vec![0]));
}

#[test]
fn run_config_settings() {
    let conf = RunConfigBuilder::new().cands(5).solver(SolverKind::Greedy(vec![2, 3])).build();
    assert_eq!(conf.cands, 5);
    assert_eq!(conf.solver, SolverKind::Greedy(vec![2, 3]));
    let conf = RunConfigBuilder::default().solver(SolverKind::Greedy(vec![])).build();
    assert_eq!(conf.cands, 10);
    assert_eq!(conf.solver, SolverKind::Greedy(vec![]));
}

#[test]
fn metric_dimensions() {
    assert_eq!(Metric::Euc2d.dim(), 2);
    assert_eq!(Metric::Geo.dim(), 2);
    assert_eq!(Metric::Att.dim(), 2);
    assert_eq!(Metric::Euc3d.dim(), 3);
    assert_eq!(Metric::Xray2.dim(), 3);
    assert_eq!(Metric::Explicit.dim(), 0);
    assert_eq!(Metric::Undefined.dim(), 0);
    assert_ne!(MetricKind::Euc2d, MetricKind::Geo);
}

#[test]
fn matrix_keys() {
    assert_eq!(MatrixKind::Full.key_pair(2, 5), (2, 5));
    assert_eq!(MatrixKind::Upper.key_pair(2, 5), (2, 7));
    assert_eq!(MatrixKind::Lower.key_pair(2, 5), (5, 2));
}

#[test]
fn node_indices() {
    let n = NodeIndex::new(4, NodeKind::Depot);
    assert_eq!(n.index(), 4);
    assert_eq!(n.kind(), NodeKind::Depot);
    assert_eq!(n.get(), 4);
    assert_eq!(7usize.get(), 7);
    assert!(NodeKind::Depot < NodeKind::Target);
    assert_ne!(KOpt::Opt2, KOpt::Opt3);
}

#[test]
fn init_tour_natural_order() {
    let mut tll = TwoLevelList::new(6, 2);
    assert!(tll.apply(&TourOrder::with_ord(vec![5, 4, 3, 2, 1, 0])).is_ok());
    assert!(init_tour(&mut tll).is_ok());
    assert_eq!(tll.tour_order().order(), &vec![0, 1, 2, 3, 4, 5]);
}

#[test]
fn greedy_candidate_choice() {
    let mut arr = Array::new(5);
    arr.set_candidates(0, vec![TourNode::empty(), TourNode::new(3), TourNode::new(1)]);
    assert_eq!(first_open_candidate(&arr, 0), Some(3));
    arr.set_visited(3, true);
    assert_eq!(first_open_candidate(&arr, 0), Some(1));
    arr.set_visited(1, true);
    assert_eq!(first_open_candidate(&arr, 0), None);
    assert_eq!(first_open_candidate(&arr, 2), None);
}

#[test]
fn greedy_walk_bookkeeping() {
    let mut tll = TwoLevelList::new(4, 2);
    tll.set_visited(2, true);
    assert_eq!(begin_walk(&mut tll, 4), Err(UpdateTourError::NodeNotFound));
    assert!(!tll.is_visited(2));
    let mut w = begin_walk(&mut tll, 2).unwrap();
    assert_eq!(w, vec![2]);
    assert!(tll.is_visited(2) && !tll.is_visited(0));
    visit_next(&mut tll, &mut w, 0);
    visit_next(&mut tll, &mut w, 3);
    visit_next(&mut tll, &mut w, 1);
    assert_eq!(w, vec![2, 0, 3, 1]);
    assert!((0..4).all(|v| tll.is_visited(v)));
}
