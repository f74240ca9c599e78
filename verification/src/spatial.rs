//! Spatial index: an R-tree over node coordinates (from the spade crate)
//! narrows a query to the minimal squared Euclidean distance, and a
//! verified refinement picks the first inserted point at that distance,
//! so that ties between equidistant points are resolved deterministically
//! by insertion order.

use vstd::prelude::*;

use crate::model::{MAX_LAT_MICRO, MAX_LON_MICRO};

verus! {

/// A point held by the spatial index: a position in micro-degrees and
/// the external identifier it stands for.
#[derive(Clone, Copy, Debug, PartialEq, Eq, Structural)]
pub struct SpatialPoint {
    /// The point's longitude, in micro-degrees.
    pub lon: i64,
    /// The point's latitude, in micro-degrees.
    pub lat: i64,
    /// The associated external identifier.
    pub id: i64,
}

impl SpatialPoint {
    /// Create a new point.
    pub fn new(lon: i64, lat: i64, id: i64) -> (p: SpatialPoint)
        ensures
            p.lon == lon && p.lat == lat && p.id == id,
    {
        SpatialPoint { lon, lat, id }
    }

    /// Coordinates lie in the physical range of longitudes and latitudes.
    pub open spec fn valid(self) -> bool {
        -MAX_LON_MICRO <= self.lon <= MAX_LON_MICRO
            && -MAX_LAT_MICRO <= self.lat <= MAX_LAT_MICRO
    }
}

/// Squared Euclidean distance between two positions in micro-degrees.
pub open spec fn sq_dist(alon: int, alat: int, blon: int, blat: int) -> int {
    (alon - blon) * (alon - blon) + (alat - blat) * (alat - blat)
}

/// `i` is the first index among `pts` whose squared distance to the
/// query is minimal: the documented tie rule for equidistant points.
pub open spec fn is_first_nearest(pts: Seq<SpatialPoint>, lon: int, lat: int, i: int) -> bool {
    &&& 0 <= i < pts.len()
    &&& forall|j: int|
        0 <= j < pts.len() ==> sq_dist(pts[i].lon as int, pts[i].lat as int, lon, lat) <= sq_dist(
            (#[trigger] pts[j]).lon as int,
            pts[j].lat as int,
            lon,
            lat,
        )
    &&& forall|j: int|
        0 <= j < i ==> sq_dist((#[trigger] pts[j]).lon as int, pts[j].lat as int, lon, lat)
            > sq_dist(pts[i].lon as int, pts[i].lat as int, lon, lat)
}

/// The set of positions held by a point sequence.
pub open spec fn coord_set(pts: Seq<SpatialPoint>) -> Set<(i64, i64)> {
    Set::new(|c: (i64, i64)| exists|j: int| 0 <= j < pts.len() && (#[trigger] pts[j]).lon == c.0 && pts[j].lat == c.1)
}

/// An r*-tree (from the spade crate) over positions in micro-degrees.
/// Verus cannot declare spade's `RTree` directly (its bound is an
/// outside trait), so the tree is held opaquely in this struct and
/// spoken of through `rtree_points`.
#[verifier::external_body]
pub struct CoordTree {
    tree: spade::rtree::RTree<[i64; 2]>,
}

/// The set of points a `CoordTree` holds.
pub uninterp spec fn rtree_points(t: CoordTree) -> Set<(i64, i64)>;

/// Relies on spade's `RTree::new`: creates an empty r*-tree.
#[verifier::external_body]
fn rtree_new() -> (t: CoordTree)
    ensures
        rtree_points(t) == Set::<(i64, i64)>::empty(),
{
    CoordTree { tree: spade::rtree::RTree::new() }
}

/// Relies on spade's `RTree::insert`: adds one point to the tree. The
/// coordinate bound keeps spade's internal squared-distance arithmetic
/// inside the `i64` range.
#[verifier::external_body]
fn rtree_insert(t: &mut CoordTree, lon: i64, lat: i64)
    requires
        -MAX_LON_MICRO <= lon <= MAX_LON_MICRO,
        -MAX_LAT_MICRO <= lat <= MAX_LAT_MICRO,
        forall|c: (i64, i64)|
            rtree_points(*old(t)).contains(c) ==> -MAX_LON_MICRO <= c.0 <= MAX_LON_MICRO
                && -MAX_LAT_MICRO <= c.1 <= MAX_LAT_MICRO,
    ensures
        rtree_points(*final(t)) == rtree_points(*old(t)).insert((lon, lat)),
{
    t.tree.insert([lon, lat]);
}

/// Relies on spade's `RTree::nearest_neighbor`: returns `None` exactly
/// on an empty tree, else some contained point at minimal squared
/// Euclidean distance from the query. Which of several equidistant
/// points comes back is left open, as spade leaves it open.
#[verifier::external_body]
fn rtree_nearest(t: &CoordTree, lon: i64, lat: i64) -> (r: Option<(i64, i64)>)
    requires
        -MAX_LON_MICRO <= lon <= MAX_LON_MICRO,
        -MAX_LAT_MICRO <= lat <= MAX_LAT_MICRO,
        forall|c: (i64, i64)|
            rtree_points(*t).contains(c) ==> -MAX_LON_MICRO <= c.0 <= MAX_LON_MICRO
                && -MAX_LAT_MICRO <= c.1 <= MAX_LAT_MICRO,
    ensures
        match r {
            None => rtree_points(*t) == Set::<(i64, i64)>::empty(),
            Some(p) => rtree_points(*t).contains(p) && forall|c: (i64, i64)|
                rtree_points(*t).contains(c) ==> sq_dist(p.0 as int, p.1 as int, lon as int, lat as int)
                    <= sq_dist(c.0 as int, c.1 as int, lon as int, lat as int),
        },
{
    t.tree.nearest_neighbor(&[lon, lat]).map(|p| (p[0], p[1]))
}

/// A nearest-neighbor structure over (position, external id) pairs,
/// built once during graph construction and queried many times.
pub struct SpatialIndex {
    /// The inserted points, in insertion order.
    pub points: Vec<SpatialPoint>,
    /// The r*-tree over the points' positions.
    pub tree: CoordTree,
}

impl SpatialIndex {
    /// The tree mirrors the positions of the inserted points, and every
    /// point lies in the physical coordinate range.
    pub open spec fn wf(self) -> bool {
        &&& rtree_points(self.tree) == coord_set(self.points@)
        &&& forall|j: int| 0 <= j < self.points@.len() ==> (#[trigger] self.points@[j]).valid()
    }

    /// Creates an empty index.
    pub fn new() -> (idx: SpatialIndex)
        ensures
            idx.wf(),
            idx.points@.len() == 0,
    {
        let idx = SpatialIndex { points: Vec::new(), tree: rtree_new() };
        proof {
            assert(rtree_points(idx.tree) =~= coord_set(idx.points@));
        }
        idx
    }

    /// Inserts one point; later queries resolve distance ties in favor
    /// of earlier insertions.
    pub fn insert(&mut self, p: SpatialPoint)
        requires
            old(self).wf(),
            p.valid(),
        ensures
            final(self).wf(),
            final(self).points@ == old(self).points@.push(p),
    {
        proof {
            assert forall|c: (i64, i64)| rtree_points(self.tree).contains(c) implies
                -MAX_LON_MICRO <= c.0 <= MAX_LON_MICRO && -MAX_LAT_MICRO <= c.1 <= MAX_LAT_MICRO by {
                assert(coord_set(self.points@).contains(c));
                let j = choose|j: int|
                    0 <= j < self.points@.len() && (#[trigger] self.points@[j]).lon == c.0
                        && self.points@[j].lat == c.1;
                assert(self.points@[j].valid());
            }
        }
        rtree_insert(&mut self.tree, p.lon, p.lat);
        self.points.push(p);
        proof {
            let ghost opts = old(self).points@;
            let ghost npts = self.points@;
            assert forall|c: (i64, i64)|
                rtree_points(self.tree).contains(c) == coord_set(npts).contains(c) by {
                if rtree_points(self.tree).contains(c) {
                    if c == (p.lon, p.lat) {
                        assert(npts[npts.len() - 1].lon == c.0 && npts[npts.len() - 1].lat == c.1);
                    } else {
                        assert(coord_set(opts).contains(c));
                        let j = choose|j: int|
                            0 <= j < opts.len() && (#[trigger] opts[j]).lon == c.0 && opts[j].lat
                                == c.1;
                        assert(npts[j].lon == c.0 && npts[j].lat == c.1);
                    }
                    assert(coord_set(npts).contains(c));
                }
                if coord_set(npts).contains(c) {
                    let j = choose|j: int|
                        0 <= j < npts.len() && (#[trigger] npts[j]).lon == c.0 && npts[j].lat
                            == c.1;
                    if j < opts.len() {
                        assert(opts[j].lon == c.0 && opts[j].lat == c.1);
                        assert(coord_set(opts).contains(c));
                    } else {
                        assert(c == (p.lon, p.lat));
                    }
                    assert(rtree_points(self.tree).contains(c));
                }
            }
            assert(rtree_points(self.tree) =~= coord_set(self.points@));
        }
    }

    /// Returns the index of the first inserted point at minimal squared
    /// Euclidean distance from the query, or `None` on an empty index.
    pub fn nearest(&self, lon: i64, lat: i64) -> (r: Option<usize>)
        requires
            self.wf(),
            -MAX_LON_MICRO <= lon <= MAX_LON_MICRO,
            -MAX_LAT_MICRO <= lat <= MAX_LAT_MICRO,
        ensures
            match r {
                None => self.points@.len() == 0,
                Some(i) => is_first_nearest(self.points@, lon as int, lat as int, i as int),
            },
    {
        if self.points.len() == 0 {
            return None;
        }
        proof {
            assert forall|c: (i64, i64)| rtree_points(self.tree).contains(c) implies
                -MAX_LON_MICRO <= c.0 <= MAX_LON_MICRO && -MAX_LAT_MICRO <= c.1 <= MAX_LAT_MICRO by {
                assert(coord_set(self.points@).contains(c));
                let j = choose|j: int|
                    0 <= j < self.points@.len() && (#[trigger] self.points@[j]).lon == c.0
                        && self.points@[j].lat == c.1;
                assert(self.points@[j].valid());
            }
        }
        match rtree_nearest(&self.tree, lon, lat) {
            None => {
                proof {
                    let p0 = self.points@[0];
                    let c = (p0.lon, p0.lat);
                    assert(c.0 == p0.lon && c.1 == p0.lat);
                    assert(exists|j: int|
                        0 <= j < self.points@.len() && (#[trigger] self.points@[j]).lon == c.0
                            && self.points@[j].lat == c.1) by {
                        assert(self.points@[0].lon == c.0 && self.points@[0].lat == c.1);
                    }
                    assert(coord_set(self.points@).contains(c));
                    assert(rtree_points(self.tree).contains(c));
                    assert(false);
                }
                None
            },
            Some(best) => {
                proof {
                    assert(coord_set(self.points@).contains(best));
                }
                let bp = SpatialPoint { lon: best.0, lat: best.1, id: 0 };
                proof {
                    let j = choose|j: int|
                        0 <= j < self.points@.len() && (#[trigger] self.points@[j]).lon == best.0
                            && self.points@[j].lat == best.1;
                    assert(self.points@[j].valid());
                }
                let dmin = sq_dist_exec(bp.lon, bp.lat, lon, lat);
                let ghost q = self.points@;
                let mut i: usize = 0;
                loop
                    invariant
                        self.wf(),
                        q == self.points@,
                        -MAX_LON_MICRO <= lon <= MAX_LON_MICRO,
                        -MAX_LAT_MICRO <= lat <= MAX_LAT_MICRO,
                        0 <= i <= q.len(),
                        dmin == sq_dist(best.0 as int, best.1 as int, lon as int, lat as int),
                        forall|c: (i64, i64)|
                            coord_set(q).contains(c) ==> dmin <= sq_dist(
                                c.0 as int,
                                c.1 as int,
                                lon as int,
                                lat as int,
                            ),
                        coord_set(q).contains(best),
                        forall|j: int|
                            0 <= j < i ==> sq_dist(
                                (#[trigger] q[j]).lon as int,
                                q[j].lat as int,
                                lon as int,
                                lat as int,
                            ) > dmin,
                    decreases q.len() - i,
                {
                    if i == self.points.len() {
                        proof {
                            let j = choose|j: int|
                                0 <= j < q.len() && (#[trigger] q[j]).lon == best.0 && q[j].lat
                                    == best.1;
                            assert(sq_dist(q[j].lon as int, q[j].lat as int, lon as int, lat as int)
                                > dmin);
                            assert(false);
                        }
                        return None;
                    }
                    let p = self.points[i];
                    proof {
                        assert(coord_set(q).contains((p.lon, p.lat)));
                    }
                    let d = sq_dist_exec(p.lon, p.lat, lon, lat);
                    if d == dmin {
                        proof {
                            assert forall|j: int|
                                0 <= j < q.len() implies sq_dist(
                                q[i as int].lon as int,
                                q[i as int].lat as int,
                                lon as int,
                                lat as int,
                            ) <= sq_dist(
                                (#[trigger] q[j]).lon as int,
                                q[j].lat as int,
                                lon as int,
                                lat as int,
                            ) by {
                                let c = (q[j].lon, q[j].lat);
                                assert(q[j].lon == c.0 && q[j].lat == c.1);
                                assert(coord_set(q).contains(c));
                            }
                        }
                        return Some(i);
                    }
                    i = i + 1;
                }
            },
        }
    }
}

/// Squared Euclidean distance over in-range micro-degree positions;
/// the coordinate bounds keep the products inside `i64`.
fn sq_dist_exec(alon: i64, alat: i64, blon: i64, blat: i64) -> (d: i64)
    requires
        -MAX_LON_MICRO <= alon <= MAX_LON_MICRO,
        -MAX_LAT_MICRO <= alat <= MAX_LAT_MICRO,
        -MAX_LON_MICRO <= blon <= MAX_LON_MICRO,
        -MAX_LAT_MICRO <= blat <= MAX_LAT_MICRO,
    ensures
        d == sq_dist(alon as int, alat as int, blon as int, blat as int),
        0 <= d,
{
    let dlon = alon - blon;
    let dlat = alat - blat;
    proof {
        assert(dlon * dlon <= 360_000_000i64 * 360_000_000i64 && dlon * dlon >= 0) by (nonlinear_arith)
            requires
                -360_000_000 <= dlon <= 360_000_000,
        ;
        assert(dlat * dlat <= 180_000_000i64 * 180_000_000i64 && dlat * dlat >= 0) by (nonlinear_arith)
            requires
                -180_000_000 <= dlat <= 180_000_000,
        ;
    }
    dlon * dlon + dlat * dlat
}

} // verus!
