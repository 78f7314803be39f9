//! Belief states: weighted point clouds in R^n.
use vstd::prelude::*;

use crate::ieee::{self, float_lt, ONE, ZERO};

verus! {

/// A single point in a belief state with an associated weight.
#[derive(Debug, PartialEq)]
pub struct WeightedPoint {
    /// The point coordinates in R^n.
    pub coords: Vec<u64>,
    /// Weight/confidence of this point. Must be > 0.
    pub weight: u64,
}

/// A belief state: a weighted point cloud in R^n.
///
/// Represents an agent's belief about a system as a collection of weighted points
/// in some metric space.
#[derive(Debug, PartialEq)]
pub struct BeliefState {
    /// The weighted points forming the belief.
    pub points: Vec<WeightedPoint>,
    /// Dimensionality of the space (all points must agree).
    pub dimension: usize,
    /// Optional label identifying the source agent.
    pub agent_id: Option<String>,
}

/// Errors for belief state operations.
#[derive(Debug, Clone, Copy, PartialEq, Eq, Structural)]
pub enum BeliefError {
    /// A point or a belief has another dimension than expected.
    DimensionMismatch { expected: usize, actual: usize },
    /// An empty belief state has no centroid.
    EmptyState,
    /// A weight is not positive (zero, negative, or not a number).
    NonPositiveWeight(u64),
}

impl View for WeightedPoint {
    type V = (Seq<u64>, u64);

    open spec fn view(&self) -> (Seq<u64>, u64) {
        (self.coords@, self.weight)
    }
}

impl Clone for WeightedPoint {
    fn clone(&self) -> (r: Self)
        ensures
            r@ == self@,
    {
        let coords = self.coords.clone();
        proof {
            assert(coords@ =~= self.coords@);
        }
        WeightedPoint { coords, weight: self.weight }
    }
}

/// The agent label as a sequence of characters.
pub open spec fn label_view(id: Option<String>) -> Option<Seq<char>> {
    match id {
        Some(s) => Some(s@),
        None => None,
    }
}

/// The points of a list, each as coordinates and weight.
pub open spec fn cloud_of(points: Seq<WeightedPoint>) -> Seq<(Seq<u64>, u64)> {
    points.map_values(|p: WeightedPoint| p@)
}

/// The point at `k` is rejected when building a belief of dimension `dim`: wrong dimension, or a
/// weight that is not above zero.
pub open spec fn rejected_point(p: (Seq<u64>, u64), dim: nat) -> bool {
    p.0.len() != dim || !float_lt(ZERO, p.1)
}

/// The error for a rejected point: the dimension is checked before the weight.
pub open spec fn point_error(p: (Seq<u64>, u64), dim: nat) -> BeliefError {
    if p.0.len() != dim {
        BeliefError::DimensionMismatch { expected: dim as usize, actual: p.0.len() as usize }
    } else {
        BeliefError::NonPositiveWeight(p.1)
    }
}

/// `k` is the first rejected point of `cloud` for dimension `dim`, and `e` its error.
pub open spec fn first_rejected(cloud: Seq<(Seq<u64>, u64)>, dim: nat, k: int, e: BeliefError) -> bool {
    &&& 0 <= k < cloud.len()
    &&& rejected_point(cloud[k], dim)
    &&& forall|t: int| 0 <= t < k ==> !rejected_point(#[trigger] cloud[t], dim)
    &&& e == point_error(cloud[k], dim)
}

impl WeightedPoint {
    /// Create a new weighted point; a weight that is not positive (NaN included) becomes `1.0`.
    pub fn new(coords: Vec<u64>, weight: u64) -> (p: Self)
        ensures
            p@ == (coords@, if float_lt(ZERO, weight) { weight } else { ONE }),
    {
        WeightedPoint { coords, weight: if ieee::lt(ZERO, weight) { weight } else { ONE } }
    }

    /// Create a point with unit weight.
    pub fn unit(coords: Vec<u64>) -> (p: Self)
        ensures
            p@ == (coords@, ONE),
    {
        WeightedPoint { coords, weight: ONE }
    }

    /// Dimensionality of the point.
    pub fn dim(&self) -> (r: usize)
        ensures
            r == self.coords@.len(),
    {
        self.coords.len()
    }
}

impl Clone for BeliefState {
    fn clone(&self) -> (r: Self)
        ensures
            r.cloud() == self.cloud(),
            r.dimension == self.dimension,
            label_view(r.agent_id) == label_view(self.agent_id),
    {
        let points = clone_points(&self.points);
        let agent_id = match &self.agent_id {
            Some(s) => Some(s.clone()),
            None => None,
        };
        BeliefState { points, dimension: self.dimension, agent_id }
    }
}

proof fn lemma_cloud_push(points: Seq<WeightedPoint>, p: WeightedPoint)
    ensures
        cloud_of(points.push(p)) == cloud_of(points).push(p@),
{
    assert(cloud_of(points.push(p)) =~= cloud_of(points).push(p@));
}

proof fn lemma_cloud_take(points: Seq<WeightedPoint>, k: int)
    requires
        0 <= k < points.len(),
    ensures
        cloud_of(points.take(k + 1)) == cloud_of(points.take(k)).push(points[k]@),
{
    assert(points.take(k + 1) == points.take(k).push(points[k]));
    lemma_cloud_push(points.take(k), points[k]);
}

/// A copy of each point of `points`, in order.
fn clone_points(points: &Vec<WeightedPoint>) -> (r: Vec<WeightedPoint>)
    ensures
        cloud_of(r@) == cloud_of(points@),
{
    let mut r: Vec<WeightedPoint> = Vec::new();
    let mut k: usize = 0;
    while k < points.len()
        invariant
            k <= points@.len(),
            cloud_of(r@) == cloud_of(points@.take(k as int)),
        decreases points@.len() - k,
    {
        let ghost before = r@;
        let p = points[k].clone();
        r.push(p);
        proof {
            lemma_cloud_take(points@, k as int);
            lemma_cloud_push(before, p);
        }
        k = k + 1;
    }
    proof {
        assert(points@.take(points@.len() as int) == points@);
    }
    r
}

impl BeliefState {
    /// The points, each as coordinates and weight.
    pub open spec fn cloud(&self) -> Seq<(Seq<u64>, u64)> {
        cloud_of(self.points@)
    }

    /// Every point has the belief's dimension and a weight above zero.
    pub open spec fn consistent(&self) -> bool {
        forall|k: int| 0 <= k < self.cloud().len() ==> !rejected_point(#[trigger] self.cloud()[k], self.dimension as nat)
    }

    /// The dimension is set, or there is no point yet: a point of any dimension may come first.
    pub open spec fn open_to_points(&self) -> bool {
        self.dimension != 0 || self.points@.len() == 0
    }

    /// Create a new belief state from weighted points.
    ///
    /// Every point must have the dimension of the first one and a weight above zero; the first
    /// point that fails is reported.
    pub fn new(points: Vec<WeightedPoint>) -> (r: Result<Self, BeliefError>)
        ensures
            points@.len() == 0 ==> r is Ok,
            r matches Ok(bs) ==> {
                &&& bs.cloud() == cloud_of(points@)
                &&& bs.dimension == (if points@.len() == 0 {
                    0
                } else {
                    points@[0].coords@.len()
                })
                &&& bs.agent_id is None
                &&& bs.consistent()
            },
            r matches Err(e) ==> points@.len() > 0 && exists|k: int|
                first_rejected(cloud_of(points@), points@[0].coords@.len(), k, e),
    {
        if points.len() == 0 {
            return Ok(BeliefState { points, dimension: 0, agent_id: None });
        }
        let dim = points[0].dim();
        let ghost cloud = cloud_of(points@);
        let mut k: usize = 0;
        while k < points.len()
            invariant
                k <= points@.len(),
                points@.len() > 0,
                cloud == cloud_of(points@),
                dim == points@[0].coords@.len(),
                forall|t: int| 0 <= t < k ==> !rejected_point(#[trigger] cloud[t], dim as nat),
            decreases points@.len() - k,
        {
            let d = points[k].dim();
            if d != dim {
                proof {
                    assert(first_rejected(cloud, dim as nat, k as int, BeliefError::DimensionMismatch {
                        expected: dim,
                        actual: d,
                    }));
                }
                return Err(BeliefError::DimensionMismatch { expected: dim, actual: d });
            }
            if !ieee::lt(ZERO, points[k].weight) {
                proof {
                    assert(first_rejected(cloud, dim as nat, k as int, BeliefError::NonPositiveWeight(
                        points@[k as int].weight,
                    )));
                }
                return Err(BeliefError::NonPositiveWeight(points[k].weight));
            }
            k = k + 1;
        }
        Ok(BeliefState { points, dimension: dim, agent_id: None })
    }

    /// Give the belief state an agent ID.
    pub fn with_agent_id(self, id: &str) -> (r: Self)
        ensures
            r.cloud() == self.cloud(),
            r.dimension == self.dimension,
            label_view(r.agent_id) == Some(id@),
    {
        let mut s = self;
        s.agent_id = Some(id.to_owned());
        s
    }

    /// Create an empty belief state in the given dimension.
    pub fn empty(dimension: usize) -> (r: Self)
        ensures
            r.cloud() == Seq::<(Seq<u64>, u64)>::empty(),
            r.dimension == dimension,
            r.agent_id is None,
    {
        let points: Vec<WeightedPoint> = Vec::new();
        proof {
            assert(cloud_of(points@) =~= Seq::<(Seq<u64>, u64)>::empty());
        }
        BeliefState { points, dimension, agent_id: None }
    }

    /// Create a belief state from unweighted coordinates (all unit weight).
    pub fn from_coords(coords: &[Vec<u64>]) -> (r: Result<Self, BeliefError>)
        ensures
            r is Ok <==> crate::distance::uniform_dimension(coords@),
            r matches Ok(bs) ==> {
                &&& bs.cloud() == coords@.map_values(|c: Vec<u64>| (c@, ONE))
                &&& bs.dimension == (if coords@.len() == 0 {
                    0
                } else {
                    coords@[0].len()
                })
                &&& bs.agent_id is None
            },
            r matches Err(e) ==> exists|k: int|
                {
                    &&& 0 < k < coords@.len()
                    &&& #[trigger] coords@[k].len() != coords@[0].len()
                    &&& forall|t: int| 0 <= t < k ==> #[trigger] coords@[t].len() == coords@[0].len()
                    &&& e == BeliefError::DimensionMismatch {
                        expected: coords@[0].len(),
                        actual: coords@[k].len(),
                    }
                },
    {
        let ghost target = coords@.map_values(|c: Vec<u64>| (c@, ONE));
        let mut points: Vec<WeightedPoint> = Vec::new();
        let mut k: usize = 0;
        while k < coords.len()
            invariant
                k <= coords@.len(),
                target == coords@.map_values(|c: Vec<u64>| (c@, ONE)),
                cloud_of(points@) == target.take(k as int),
            decreases coords@.len() - k,
        {
            let c = coords[k].clone();
            proof {
                assert(c@ =~= coords@[k as int]@);
            }
            let ghost before = points@;
            let p = WeightedPoint::unit(c);
            points.push(p);
            proof {
                lemma_cloud_push(before, p);
                assert(target.take(k + 1) == target.take(k as int).push(target[k as int]));
            }
            k = k + 1;
        }
        proof {
            assert(target.take(target.len() as int) == target);
            ieee::lemma_constants();
            assert(forall|t: int| 0 <= t < coords@.len() ==> #[trigger] target[t] == (coords@[t]@, ONE));
            if coords@.len() > 0 {
                assert(cloud_of(points@)[0] == target[0]);
                assert(points@[0].coords@ == coords@[0]@);
            }
        }
        let r = Self::new(points);
        proof {
            if r is Ok {
                let bs = r->Ok_0;
                assert forall|t: int| 0 <= t < coords@.len() implies #[trigger] coords@[t].len()
                    == coords@[0].len() by {
                    assert(!rejected_point(cloud_of(points@)[t], bs.dimension as nat));
                }
            } else {
                let e = r->Err_0;
                assert(points@[0].coords@.len() == coords@[0].len());
                let k = choose|k: int| first_rejected(cloud_of(points@), points@[0].coords@.len(), k, e);
                assert(cloud_of(points@)[k] == target[k]);
                assert(float_lt(ZERO, ONE));
                assert(coords@[k].len() != coords@[0].len());
                assert(k > 0);
                assert forall|t: int| 0 <= t < k implies #[trigger] coords@[t].len() == coords@[0].len() by {
                    assert(cloud_of(points@)[t] == target[t]);
                    assert(!rejected_point(cloud_of(points@)[t], points@[0].coords@.len()));
                }
                assert(e == BeliefError::DimensionMismatch {
                    expected: coords@[0].len(),
                    actual: coords@[k].len(),
                });
                assert(!crate::distance::uniform_dimension(coords@));
            }
        }
        r
    }

    /// Number of points.
    pub fn len(&self) -> (r: usize)
        ensures
            r == self.points@.len(),
    {
        self.points.len()
    }

    /// Whether the belief state is empty.
    pub fn is_empty(&self) -> (r: bool)
        ensures
            r == (self.points@.len() == 0),
    {
        self.points.len() == 0
    }

    /// Compute the union of two belief states: the points of both, in order.
    ///
    /// The dimensions must agree unless one of them is 0 (an unset dimension).
    pub fn union(&self, other: &BeliefState) -> (r: Result<BeliefState, BeliefError>)
        ensures
            r is Err <==> (self.dimension != 0 && other.dimension != 0 && self.dimension
                != other.dimension),
            r matches Ok(u) ==> {
                &&& u.cloud() == self.cloud() + other.cloud()
                &&& u.dimension == (if self.dimension == 0 {
                    other.dimension
                } else {
                    self.dimension
                })
                &&& u.agent_id is None
            },
            r matches Ok(u) ==> (self.consistent() && other.consistent() && self.open_to_points()
                && other.open_to_points() ==> u.consistent() && u.open_to_points()),
            r matches Err(e) ==> e == (BeliefError::DimensionMismatch {
                expected: self.dimension,
                actual: other.dimension,
            }),
    {
        if self.dimension != 0 && other.dimension != 0 && self.dimension != other.dimension {
            return Err(
                BeliefError::DimensionMismatch { expected: self.dimension, actual: other.dimension },
            );
        }
        let dim = if self.dimension == 0 {
            other.dimension
        } else {
            self.dimension
        };
        let mut combined = clone_points(&self.points);
        let ghost first = cloud_of(combined@);
        let mut k: usize = 0;
        while k < other.points.len()
            invariant
                k <= other.points@.len(),
                first == self.cloud(),
                cloud_of(combined@) == first + cloud_of(other.points@.take(k as int)),
            decreases other.points@.len() - k,
        {
            let ghost before = combined@;
            let p = other.points[k].clone();
            combined.push(p);
            proof {
                lemma_cloud_push(before, p);
                lemma_cloud_take(other.points@, k as int);
                assert(cloud_of(combined@) =~= first + cloud_of(other.points@.take(k + 1)));
            }
            k = k + 1;
        }
        proof {
            assert(other.points@.take(other.points@.len() as int) == other.points@);
        }
        Ok(BeliefState { points: combined, dimension: dim, agent_id: None })
    }

    /// Get just the coordinate vectors (without weights).
    pub fn coords(&self) -> (r: Vec<Vec<u64>>)
        ensures
            r@.map_values(|c: Vec<u64>| c@) == self.cloud().map_values(
                |p: (Seq<u64>, u64)| p.0,
            ),
    {
        let ghost target = self.cloud().map_values(|p: (Seq<u64>, u64)| p.0);
        let mut r: Vec<Vec<u64>> = Vec::new();
        let mut k: usize = 0;
        while k < self.points.len()
            invariant
                k <= self.points@.len(),
                target == self.cloud().map_values(|p: (Seq<u64>, u64)| p.0),
                r@.map_values(|c: Vec<u64>| c@) == target.take(k as int),
            decreases self.points@.len() - k,
        {
            let c = self.points[k].coords.clone();
            proof {
                assert(c@ =~= self.points@[k as int].coords@);
            }
            let ghost before = r@;
            r.push(c);
            proof {
                assert(r@ == before.push(c));
                assert(r@.map_values(|c: Vec<u64>| c@) =~= before.map_values(|c: Vec<u64>| c@).push(c@));
                assert(target.take(k + 1) == target.take(k as int).push(target[k as int]));
            }
            k = k + 1;
        }
        proof {
            assert(target.take(target.len() as int) == target);
        }
        r
    }

    /// Add a point to the belief state.
    ///
    /// The point must have the belief's dimension (unless that is still 0, which the point then
    /// sets) and a weight above zero.
    pub fn add_point(&mut self, point: WeightedPoint) -> (r: Result<(), BeliefError>)
        ensures
            r is Ok <==> !((old(self).dimension != 0 && point.coords@.len() != old(self).dimension)
                || !float_lt(ZERO, point.weight)),
            r matches Err(e) ==> {
                &&& e == (if old(self).dimension != 0 && point.coords@.len() != old(self).dimension {
                    BeliefError::DimensionMismatch {
                        expected: old(self).dimension,
                        actual: point.coords@.len() as usize,
                    }
                } else {
                    BeliefError::NonPositiveWeight(point.weight)
                })
                &&& final(self).cloud() == old(self).cloud()
                &&& final(self).dimension == old(self).dimension
            },
            r is Ok ==> {
                &&& final(self).cloud() == old(self).cloud().push(point@)
                &&& final(self).dimension == point.coords@.len()
            },
            (r is Ok && old(self).consistent() && old(self).open_to_points()) ==> final(self).consistent(),
            label_view(final(self).agent_id) == label_view(old(self).agent_id),
    {
        if self.dimension != 0 && point.dim() != self.dimension {
            return Err(
                BeliefError::DimensionMismatch { expected: self.dimension, actual: point.dim() },
            );
        }
        if !ieee::lt(ZERO, point.weight) {
            return Err(BeliefError::NonPositiveWeight(point.weight));
        }
        if self.dimension == 0 {
            self.dimension = point.dim();
        }
        let ghost before = self.points@;
        self.points.push(point);
        proof {
            assert(cloud_of(self.points@) =~= cloud_of(before).push(point@));
        }
        Ok(())
    }
}

/// A point made by `WeightedPoint::new` always has a positive weight.
pub proof fn law_new_weight_positive(coords: Seq<u64>, weight: u64)
    ensures
        float_lt(ZERO, if float_lt(ZERO, weight) { weight } else { ONE }),
{
    ieee::lemma_constants();
}

} // verus!
