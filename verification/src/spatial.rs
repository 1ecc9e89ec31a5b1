//! The spatial index: an R-tree from the rstar crate, each point
//! carrying its record identifier. The rstar calls are the only outside
//! calls of the library; the wrappers here state what they do in terms
//! of the map of entries the tree holds.
//!
//! The tree files each point on a bounded, nonnegative coarse grid
//! (`10^7`-scaled degrees clamped to the physical range, shifted and
//! divided by the grid step) rather than at full scale: rstar's
//! insertion computes envelope areas, their sums, centers and squared
//! center distances in the scalar type itself, and full-scale `i64`
//! coordinates would overflow those products. On the grid every such
//! quantity stays far inside `i64`. The grid is only a candidate
//! pre-filter: grid containment is implied by exact containment (the
//! conversion is monotone), and the callers re-test the exact envelope
//! themselves, so query results are decided at full precision.
use vstd::arithmetic::div_mod::{lemma_div_is_ordered, lemma_div_pos_is_pos};
use vstd::prelude::*;

verus! {

/// Coordinates are clamped to this magnitude (180 degrees at the `10^7`
/// scale) before they are filed in the tree.
pub const GRID_CLAMP: i64 = 1_800_000_000;

/// The width of one grid cell, in `10^7`-scale units.
pub const GRID_STEP: i64 = 64;

/// The largest grid value: `2 * GRID_CLAMP / GRID_STEP`.
pub const GRID_MAX: i64 = 56_250_000;

/// A `10^7`-scaled coordinate on the tree's coarse grid: clamped to the
/// physical range, shifted to be nonnegative, and divided by the step.
pub open spec fn grid_of(v: int) -> int {
    let c = if v < -(GRID_CLAMP as int) {
        -(GRID_CLAMP as int)
    } else if v > GRID_CLAMP as int {
        GRID_CLAMP as int
    } else {
        v
    };
    (c + GRID_CLAMP as int) / (GRID_STEP as int)
}

/// Computes the grid value of a coordinate.
pub fn grid_of_x(v: i64) -> (r: i64)
    ensures
        r as int == grid_of(v as int),
        r == grid_val(v),
        0 <= r <= GRID_MAX,
{
    proof {
        lemma_grid_range(v as int);
    }
    let c = if v < -GRID_CLAMP {
        -GRID_CLAMP
    } else if v > GRID_CLAMP {
        GRID_CLAMP
    } else {
        v
    };
    let shifted = (c + GRID_CLAMP) as u64;
    proof {
        lemma_div_pos_is_pos(shifted as int, GRID_STEP as int);
        lemma_div_is_ordered(shifted as int, 2 * (GRID_CLAMP as int), GRID_STEP as int);
    }
    (shifted / (GRID_STEP as u64)) as i64
}

/// The grid value, as the tree's own scalar type.
pub open spec fn grid_val(v: i64) -> i64 {
    grid_of(v as int) as i64
}

/// Grid values lie in `[0, GRID_MAX]`.
pub proof fn lemma_grid_range(v: int)
    ensures
        0 <= grid_of(v) <= GRID_MAX,
{
    let c = if v < -(GRID_CLAMP as int) {
        -(GRID_CLAMP as int)
    } else if v > GRID_CLAMP as int {
        GRID_CLAMP as int
    } else {
        v
    };
    lemma_div_pos_is_pos(c + GRID_CLAMP as int, GRID_STEP as int);
    lemma_div_is_ordered(c + GRID_CLAMP as int, 2 * (GRID_CLAMP as int), GRID_STEP as int);
}

/// The grid conversion keeps the coordinate order.
pub proof fn lemma_grid_monotone(a: int, b: int)
    requires
        a <= b,
    ensures
        grid_of(a) <= grid_of(b),
{
    let ca = if a < -(GRID_CLAMP as int) {
        -(GRID_CLAMP as int)
    } else if a > GRID_CLAMP as int {
        GRID_CLAMP as int
    } else {
        a
    };
    let cb = if b < -(GRID_CLAMP as int) {
        -(GRID_CLAMP as int)
    } else if b > GRID_CLAMP as int {
        GRID_CLAMP as int
    } else {
        b
    };
    assert(ca <= cb);
    lemma_div_is_ordered(ca + GRID_CLAMP as int, cb + GRID_CLAMP as int, GRID_STEP as int);
}

/// An R-tree of points tagged with record identifiers.
#[verifier::external_body]
pub struct GeoIndex {
    tree: rstar::RTree<rstar::primitives::GeomWithData<[i64; 2], usize>>,
}

/// What the spatial index holds: the point filed under each identifier.
/// The wrappers below state how every rstar call reads or grows this map.
pub uninterp spec fn geo_entries(g: GeoIndex) -> Map<usize, (i64, i64)>;

impl GeoIndex {
    /// The map of entries the tree holds.
    pub open spec fn entries(self) -> Map<usize, (i64, i64)> {
        geo_entries(self)
    }
}

/// The empty entry map.
pub open spec fn no_entries() -> Map<usize, (i64, i64)> {
    Map::empty()
}

/// Whether a point lies in the axis-aligned box with the given corners,
/// the corners normalized componentwise as rstar's `AABB::from_corners`
/// normalizes them.
pub open spec fn in_corner_box(p: (i64, i64), a_lat: i64, a_lon: i64, b_lat: i64, b_lon: i64) -> bool {
    let lo_lat = if a_lat <= b_lat {
        a_lat
    } else {
        b_lat
    };
    let hi_lat = if a_lat <= b_lat {
        b_lat
    } else {
        a_lat
    };
    let lo_lon = if a_lon <= b_lon {
        a_lon
    } else {
        b_lon
    };
    let hi_lon = if a_lon <= b_lon {
        b_lon
    } else {
        a_lon
    };
    lo_lat <= p.0 <= hi_lat && lo_lon <= p.1 <= hi_lon
}

/// Relies on rstar::RTree::new: a freshly built tree holds no entries.
#[verifier::external_body]
pub fn geo_new() -> (r: GeoIndex)
    ensures
        r.entries() == no_entries(),
{
    GeoIndex { tree: rstar::RTree::new() }
}

/// Relies on rstar::RTree::insert: the tree grows by exactly the one
/// inserted point. The identifier must be fresh, so that the map of
/// entries stays faithful to the tree. The coordinates must lie on the
/// grid (in `[0, GRID_MAX]`): rstar's insertion computes envelope areas
/// and their sums, centers and squared center distances in `i64`, and
/// within that range every such quantity fits with a wide margin, so
/// the call cannot overflow.
#[verifier::external_body]
pub fn geo_insert(g: &mut GeoIndex, lat: i64, lon: i64, id: usize)
    requires
        !old(g).entries().dom().contains(id),
        0 <= lat <= GRID_MAX,
        0 <= lon <= GRID_MAX,
    ensures
        geo_entries(*final(g)) == geo_entries(*old(g)).insert(id, (lat, lon)),
{
    g.tree.insert(rstar::primitives::GeomWithData::new([lat, lon], id));
}

/// Relies on rstar::AABB::from_corners, which normalizes the corners
/// componentwise, and rstar::RTree::locate_in_envelope, which yields
/// exactly the entries whose point lies inside the box, bounds included.
#[verifier::external_body]
pub fn geo_locate(g: &GeoIndex, a_lat: i64, a_lon: i64, b_lat: i64, b_lon: i64) -> (r: Vec<usize>)
    ensures
        forall|id: usize|
            #[trigger] r@.contains(id) <==> (g.entries().dom().contains(id) && in_corner_box(
                g.entries()[id],
                a_lat,
                a_lon,
                b_lat,
                b_lon,
            )),
{
    let envelope = rstar::AABB::from_corners([a_lat, a_lon], [b_lat, b_lon]);
    g.tree.locate_in_envelope(envelope).map(|e| e.data).collect()
}

} // verus!
