//! Ray-casting point-in-polygon test on `10^7`-scaled coordinates.
//! The crossing test compares exact cross products instead of dividing,
//! so it is deterministic; coordinate differences are clamped to `2^62`
//! first, which leaves every geographically meaningful value untouched.
use vstd::prelude::*;

verus! {

/// The clamp bound for coordinate differences.
pub const DIFF_CLAMP: i128 = 0x4000_0000_0000_0000;

/// A value clamped into `[-DIFF_CLAMP, DIFF_CLAMP]`.
pub open spec fn cl62(x: int) -> int {
    if x > DIFF_CLAMP as int {
        DIFF_CLAMP as int
    } else if x < -(DIFF_CLAMP as int) {
        -(DIFF_CLAMP as int)
    } else {
        x
    }
}

/// Whether the upward ray from `(plat, plon)` crosses the edge from
/// vertex `vi` to vertex `vj`: the edge spans the point's longitude and
/// the point sits below the edge's latitude there, compared by cross
/// products.
pub open spec fn edge_crosses(plat: int, plon: int, vi: (i64, i64), vj: (i64, i64)) -> bool {
    ((vi.1 > plon) != (vj.1 > plon)) && {
        let dl = cl62(vj.1 - vi.1);
        let lhs = cl62(plat - vi.0) * dl;
        let rhs = cl62(vj.0 - vi.0) * cl62(plon - vi.1);
        if dl > 0 {
            lhs < rhs
        } else {
            lhs > rhs
        }
    }
}

/// The crossing parity of the first `k` edges, edge `k` running from
/// vertex `k - 1` to the vertex before it (the last vertex for the
/// first edge).
pub open spec fn crossings(plat: int, plon: int, poly: Seq<(i64, i64)>, k: int) -> bool
    decreases k,
{
    if k <= 0 {
        false
    } else {
        let prev = if k == 1 {
            poly.len() as int - 1
        } else {
            k - 2
        };
        crossings(plat, plon, poly, k - 1) != edge_crosses(plat, plon, poly[k - 1], poly[prev])
    }
}

/// Whether `(plat, plon)` lies inside the polygon, by ray casting.
pub open spec fn pip(plat: int, plon: int, poly: Seq<(i64, i64)>) -> bool {
    crossings(plat, plon, poly, poly.len() as int)
}

fn cl62_x(x: i128) -> (r: i128)
    ensures
        r as int == cl62(x as int),
        -DIFF_CLAMP <= r <= DIFF_CLAMP,
{
    if x > DIFF_CLAMP {
        DIFF_CLAMP
    } else if x < -DIFF_CLAMP {
        -DIFF_CLAMP
    } else {
        x
    }
}

fn edge_crosses_x(plat: i64, plon: i64, vi: (i64, i64), vj: (i64, i64)) -> (r: bool)
    ensures
        r == edge_crosses(plat as int, plon as int, vi, vj),
{
    if (vi.1 > plon) != (vj.1 > plon) {
        let dl = cl62_x(vj.1 as i128 - vi.1 as i128);
        let e_lat = cl62_x(plat as i128 - vi.0 as i128);
        let d_lat = cl62_x(vj.0 as i128 - vi.0 as i128);
        let d_lon = cl62_x(plon as i128 - vi.1 as i128);
        proof {
            assert(-(DIFF_CLAMP as int) * (DIFF_CLAMP as int) <= (e_lat as int) * (dl as int) <= (
            DIFF_CLAMP as int) * (DIFF_CLAMP as int)) by (nonlinear_arith)
                requires
                    -(DIFF_CLAMP as int) <= e_lat as int <= DIFF_CLAMP as int,
                    -(DIFF_CLAMP as int) <= dl as int <= DIFF_CLAMP as int,
            ;
            assert(-(DIFF_CLAMP as int) * (DIFF_CLAMP as int) <= (d_lat as int) * (d_lon as int)
                <= (DIFF_CLAMP as int) * (DIFF_CLAMP as int)) by (nonlinear_arith)
                requires
                    -(DIFF_CLAMP as int) <= d_lat as int <= DIFF_CLAMP as int,
                    -(DIFF_CLAMP as int) <= d_lon as int <= DIFF_CLAMP as int,
            ;
        }
        let lhs = e_lat * dl;
        let rhs = d_lat * d_lon;
        if dl > 0 {
            lhs < rhs
        } else {
            lhs > rhs
        }
    } else {
        false
    }
}

/// The ray-casting containment test over all edges of the polygon.
pub fn point_in_polygon(plat: i64, plon: i64, poly: &Vec<(i64, i64)>) -> (r: bool)
    requires
        poly@.len() >= 1,
    ensures
        r == pip(plat as int, plon as int, poly@),
{
    let n = poly.len();
    let mut inside = false;
    let mut j = n - 1;
    let mut i: usize = 0;
    while i < n
        invariant
            poly@.len() == n,
            n >= 1,
            i <= n,
            j == if i == 0 {
                (n - 1) as int
            } else {
                i - 1
            },
            inside == crossings(plat as int, plon as int, poly@, i as int),
        decreases n - i,
    {
        let c = edge_crosses_x(plat, plon, poly[i], poly[j]);
        if c {
            inside = !inside;
        }
        j = i;
        i += 1;
    }
    inside
}

/// The least latitude among the vertices.
pub open spec fn min_lat_of(s: Seq<(i64, i64)>) -> int
    decreases s.len(),
{
    if s.len() <= 1 {
        s[0].0 as int
    } else {
        let m = min_lat_of(s.drop_last());
        if (s.last().0 as int) < m {
            s.last().0 as int
        } else {
            m
        }
    }
}

/// The greatest latitude among the vertices.
pub open spec fn max_lat_of(s: Seq<(i64, i64)>) -> int
    decreases s.len(),
{
    if s.len() <= 1 {
        s[0].0 as int
    } else {
        let m = max_lat_of(s.drop_last());
        if (s.last().0 as int) > m {
            s.last().0 as int
        } else {
            m
        }
    }
}

/// The least longitude among the vertices.
pub open spec fn min_lon_of(s: Seq<(i64, i64)>) -> int
    decreases s.len(),
{
    if s.len() <= 1 {
        s[0].1 as int
    } else {
        let m = min_lon_of(s.drop_last());
        if (s.last().1 as int) < m {
            s.last().1 as int
        } else {
            m
        }
    }
}

/// The greatest longitude among the vertices.
pub open spec fn max_lon_of(s: Seq<(i64, i64)>) -> int
    decreases s.len(),
{
    if s.len() <= 1 {
        s[0].1 as int
    } else {
        let m = max_lon_of(s.drop_last());
        if (s.last().1 as int) > m {
            s.last().1 as int
        } else {
            m
        }
    }
}

/// The least vertex coordinate never exceeds the greatest.
pub proof fn lemma_bounds_ordered(s: Seq<(i64, i64)>)
    requires
        s.len() >= 1,
    ensures
        min_lat_of(s) <= max_lat_of(s),
        min_lon_of(s) <= max_lon_of(s),
    decreases s.len(),
{
    if s.len() > 1 {
        lemma_bounds_ordered(s.drop_last());
    }
}

/// The axis-aligned bounding box of the vertices, as
/// `(min_lat, max_lat, min_lon, max_lon)`.
pub fn vertex_bounds(poly: &Vec<(i64, i64)>) -> (r: (i64, i64, i64, i64))
    requires
        poly@.len() >= 1,
    ensures
        r.0 as int == min_lat_of(poly@),
        r.1 as int == max_lat_of(poly@),
        r.2 as int == min_lon_of(poly@),
        r.3 as int == max_lon_of(poly@),
{
    let first = poly[0];
    let mut lo_lat = first.0;
    let mut hi_lat = first.0;
    let mut lo_lon = first.1;
    let mut hi_lon = first.1;
    let mut i: usize = 1;
    proof {
        assert(poly@.take(1).len() == 1);
    }
    while i < poly.len()
        invariant
            1 <= i <= poly@.len(),
            lo_lat as int == min_lat_of(poly@.take(i as int)),
            hi_lat as int == max_lat_of(poly@.take(i as int)),
            lo_lon as int == min_lon_of(poly@.take(i as int)),
            hi_lon as int == max_lon_of(poly@.take(i as int)),
        decreases poly@.len() - i,
    {
        let v = poly[i];
        proof {
            assert(poly@.take(i + 1).drop_last() =~= poly@.take(i as int));
            assert(poly@.take(i + 1).last() == v);
        }
        if v.0 < lo_lat {
            lo_lat = v.0;
        }
        if v.0 > hi_lat {
            hi_lat = v.0;
        }
        if v.1 < lo_lon {
            lo_lon = v.1;
        }
        if v.1 > hi_lon {
            hi_lon = v.1;
        }
        i += 1;
    }
    proof {
        assert(poly@.take(poly@.len() as int) =~= poly@);
    }
    (lo_lat, hi_lat, lo_lon, hi_lon)
}

} // verus!
