//! Node indices and the kinds of distance functions.
use vstd::prelude::*;

verus! {

/// Anything that stands for a node index.
pub trait GetIndex {
    /// The node index a value stands for.
    spec fn index_of(&self) -> usize;

    /// Returns a node's index.
    fn get(&self) -> (r: usize)
        ensures
            r == self.index_of(),
    ;
}

impl GetIndex for usize {
    open spec fn index_of(&self) -> usize {
        *self
    }

    fn get(&self) -> (r: usize) {
        *self
    }
}

impl GetIndex for NodeIndex {
    open spec fn index_of(&self) -> usize {
        self.index
    }

    fn get(&self) -> (r: usize) {
        self.index
    }
}

/// The index of a location together with its kind.
#[derive(Clone, Copy, Debug, PartialEq, Eq, Hash, Structural)]
pub struct NodeIndex {
    pub index: usize,
    pub kind: NodeKind,
}

impl NodeIndex {
    pub fn new(index: usize, kind: NodeKind) -> (r: NodeIndex)
        ensures
            r.index == index,
            r.kind == kind,
    {
        NodeIndex { index, kind }
    }

    /// Returns the location's index.
    pub fn index(&self) -> (r: usize)
        ensures
            r == self.index,
    {
        self.index
    }

    /// Returns the location's kind.
    pub fn kind(&self) -> (r: NodeKind)
        ensures
            r == self.kind,
    {
        self.kind
    }
}

/// Whether a location is a depot or a target to visit.
#[derive(Clone, Copy, Debug, PartialEq, Eq, PartialOrd, Ord, Hash, Structural)]
pub enum NodeKind {
    Depot,
    Target,
}

/// The distance functions of the TSPLIB format.
#[derive(Clone, Copy, Debug, PartialEq, Eq, PartialOrd, Ord, Hash, Structural)]
pub enum Metric {
    /// Weights are explicitly given in the data file.
    Explicit,
    /// Two-dimensional Euclidean distance.
    Euc2d,
    /// Three-dimensional Euclidean distance.
    Euc3d,
    /// Two-dimensional maximum distance.
    Max2d,
    /// Three-dimensional maximum distance.
    Max3d,
    /// Two-dimensional Manhattan distance.
    Man2d,
    /// Three-dimensional Manhattan distance.
    Man3d,
    /// Rounded-up two dimensional Euclidean distance.
    Ceil2d,
    /// Geographical distance.
    Geo,
    /// Special distance function for problems ```att48``` and ```att532```.
    Att,
    /// Special distance function for crystallography problems of version 1.
    Xray1,
    /// Special distance function for crystallography problems of version 2.
    Xray2,
    /// Distance function defined by users.
    Custom,
    /// No distance function is given.
    Undefined,
}

/// The number of coordinates a metric reads from each point.
pub open spec fn metric_dim(m: Metric) -> usize {
    match m {
        Metric::Explicit | Metric::Undefined | Metric::Custom => 0,
        Metric::Euc2d | Metric::Max2d | Metric::Man2d | Metric::Ceil2d | Metric::Geo | Metric::Att => 2,
        Metric::Euc3d | Metric::Max3d | Metric::Man3d | Metric::Xray1 | Metric::Xray2 => 3,
    }
}

/// The metrics on points in the plane read two coordinates, those on points
/// in space (and the crystallography metrics) three, the others none.
pub proof fn law_metric_dim(m: Metric)
    ensures
        (metric_dim(m) == 3) == (m == Metric::Euc3d || m == Metric::Max3d || m == Metric::Man3d || m == Metric::Xray1
            || m == Metric::Xray2),
        (metric_dim(m) == 2) == (m == Metric::Euc2d || m == Metric::Max2d || m == Metric::Man2d || m == Metric::Ceil2d
            || m == Metric::Geo || m == Metric::Att),
        (metric_dim(m) == 0) == (m == Metric::Explicit || m == Metric::Undefined || m == Metric::Custom),
{
}

impl Metric {
    /// The number of coordinates of a point; a user-defined metric has no
    /// fixed number.
    pub fn dim(&self) -> (r: usize)
        requires
            *self != Metric::Custom,
        ensures
            r == metric_dim(*self),
    {
        match self {
            Metric::Explicit => 0,
            Metric::Euc2d | Metric::Max2d | Metric::Man2d | Metric::Ceil2d | Metric::Geo | Metric::Att => 2,
            Metric::Euc3d | Metric::Max3d | Metric::Man3d | Metric::Xray1 | Metric::Xray2 => 3,
            Metric::Custom => 0,
            Metric::Undefined => 0,
        }
    }
}

/// The kinds of distance functions a repository can use.
#[derive(Clone, Copy, Debug, PartialEq, Eq, Structural)]
pub enum MetricKind {
    /// Two-dimensional Euclidean distance.
    Euc2d,
    /// Three-dimensional Euclidean distance.
    Euc3d,
    /// Geographical distance.
    Geo,
    /// No distance function is given.
    Undefined,
}

/// Which part of a square matrix of costs a table of rows holds.
#[derive(Clone, Copy, Debug, PartialEq, Eq, Structural)]
pub enum MatrixKind {
    /// Every entry: row `r` holds the costs from node `r` to nodes `0, 1, ..`.
    Full,
    /// The upper triangle: row `r` holds the costs from node `r` to nodes `r, r + 1, ..`.
    Upper,
    /// The lower triangle: row `r` holds the costs from nodes `0, 1, .., r` to node `r`.
    Lower,
}

/// The pair of nodes whose cost stands at column `col` of row `row`.
pub open spec fn matrix_key_spec(kind: MatrixKind, row: int, col: int) -> (int, int) {
    match kind {
        MatrixKind::Full => (row, col),
        MatrixKind::Upper => (row, col + row),
        MatrixKind::Lower => (col, row),
    }
}

/// The entry at column `col` of row `row` is the cost between node `row`
/// and another node: node `col` in a full matrix, node `row + col` in an
/// upper triangle (whose rows start at the diagonal), node `col` in a lower
/// triangle (whose rows end at the diagonal). A triangle names the smaller
/// node first.
pub proof fn law_key_pair(kind: MatrixKind, row: int, col: int)
    requires
        0 <= row,
        0 <= col,
    ensures
        kind == MatrixKind::Full ==> matrix_key_spec(kind, row, col) == (row, col),
        kind == MatrixKind::Upper ==> matrix_key_spec(kind, row, col).0 == row && matrix_key_spec(kind, row, col).1
            - matrix_key_spec(kind, row, col).0 == col,
        kind == MatrixKind::Lower && col <= row ==> matrix_key_spec(kind, row, col).1 == row && matrix_key_spec(
            kind,
            row,
            col,
        ).0 == col,
        kind != MatrixKind::Full && (kind == MatrixKind::Upper || col <= row) ==> matrix_key_spec(kind, row, col).0
            <= matrix_key_spec(kind, row, col).1,
{
}

impl MatrixKind {
    /// The pair of nodes whose cost stands at column `col` of row `row`.
    pub fn key_pair(&self, row: usize, col: usize) -> (r: (usize, usize))
        requires
            *self == MatrixKind::Upper ==> row + col <= usize::MAX,
        ensures
            (r.0 as int, r.1 as int) == matrix_key_spec(*self, row as int, col as int),
    {
        match self {
            MatrixKind::Full => (row, col),
            MatrixKind::Upper => (row, col + row),
            MatrixKind::Lower => (col, row),
        }
    }
}

} // verus!
