//! Fixed-point spherical geometry. Angles are radians scaled by `10^9`,
//! coordinates are degrees scaled by `10^7`, and distances are meters.
//! The haversine distance is evaluated with small polynomials for sine
//! and arcsine and an integer square root; every step is deterministic
//! integer arithmetic, so a query's result is a function of its inputs.
use vstd::arithmetic::div_mod::{
    lemma_div_is_ordered, lemma_div_multiples_vanish, lemma_div_pos_is_pos, lemma_mod_bound,
};
use vstd::prelude::*;

verus! {

/// One radian in fixed-point angle units.
pub const SCALE_Q: u64 = 1_000_000_000;

/// A quarter turn: pi / 2 scaled by `10^9`.
pub const QUARTER_TURN_Q: u64 = 1_570_796_327;

/// A full turn: 2 * pi scaled by `10^9`, kept at exactly four quarters.
pub const FULL_TURN_Q: u64 = 6_283_185_308;

/// Radians scaled by `10^9` per one degree scaled by `10^7`, times `10^9`.
pub const RAD_PER_E7_NUM: u64 = 1_745_329_252;

/// Denominator for the degree-to-radian conversion.
pub const RAD_PER_E7_DEN: u64 = 1_000_000_000;

/// The fixed Earth radius, in meters.
pub const EARTH_RADIUS_M: u64 = 6_371_000;

/// sin(pi / 4) scaled by `10^9`: where the arcsine switches to its
/// complementary form.
pub const ASIN_SPLIT_Q: u64 = 707_106_781;

/// `SCALE_Q * SCALE_Q`.
pub const SCALE_SQ: u128 = 1_000_000_000_000_000_000;

pub open spec fn abs_i(x: int) -> int {
    if x < 0 {
        -x
    } else {
        x
    }
}

/// A nonnegative `10^7`-scaled degree value as a `10^9`-scaled radian value.
pub open spec fn rad_of_e7(d: int) -> int {
    d * (RAD_PER_E7_NUM as int) / (RAD_PER_E7_DEN as int)
}

/// An angle folded into `[0, FULL_TURN_Q)`.
pub open spec fn turn_of(x: int) -> int {
    x % (FULL_TURN_Q as int)
}

/// The sine polynomial on `[0, QUARTER_TURN_Q]`, clamped to `SCALE_Q`.
pub open spec fn sin_poly(x: int) -> int {
    let s = SCALE_Q as int;
    let x2 = x * x / s;
    let x3 = x2 * x / s;
    let x5 = x3 * x2 / s;
    let v = x + x5 / 120 - x3 / 6;
    if v > s {
        s
    } else {
        v
    }
}

/// `|sin|` of an angle in `[0, FULL_TURN_Q)`, by quadrant folding.
pub open spec fn abs_sin(y: int) -> int {
    let q = QUARTER_TURN_Q as int;
    if y < q {
        sin_poly(y)
    } else if y < 2 * q {
        sin_poly(2 * q - y)
    } else if y < 3 * q {
        sin_poly(y - 2 * q)
    } else {
        sin_poly(4 * q - y)
    }
}

/// `sin^2(d / 2)` scaled by `SCALE_Q`, for a nonnegative angle `d`.
pub open spec fn half_sin_sq(d: int) -> int {
    let s = abs_sin(turn_of(d / 2));
    s * s / (SCALE_Q as int)
}

/// The cosine of a latitude given in `10^7`-scaled degrees, with its sign.
pub open spec fn cos_signed(lat_e7: int) -> int {
    let q = QUARTER_TURN_Q as int;
    let y = turn_of(rad_of_e7(abs_i(lat_e7)));
    if y < q {
        sin_poly(q - y)
    } else if y < 2 * q {
        -sin_poly(y - q)
    } else if y < 3 * q {
        -sin_poly(3 * q - y)
    } else {
        sin_poly(y - 3 * q)
    }
}

/// The haversine intermediate `a`, clamped into `[0, SCALE_Q]`.
pub open spec fn hav_a(lat1: int, lon1: int, lat2: int, lon2: int) -> int {
    let s = SCALE_Q as int;
    let hs_lat = half_sin_sq(rad_of_e7(abs_i(lat1 - lat2)));
    let hs_lon = half_sin_sq(rad_of_e7(abs_i(lon1 - lon2)));
    let c1 = cos_signed(lat1);
    let c2 = cos_signed(lat2);
    let t = abs_i(c1) * abs_i(c2) * hs_lon / (SCALE_SQ as int);
    let a0 = if (c1 < 0) != (c2 < 0) {
        hs_lat - t
    } else {
        hs_lat + t
    };
    if a0 < 0 {
        0
    } else if a0 > s {
        s
    } else {
        a0
    }
}

pub open spec fn is_isqrt(n: int, r: int) -> bool {
    r >= 0 && r * r <= n && n < (r + 1) * (r + 1)
}

/// The integer square root, as the unique `r` with
/// `r^2 <= n < (r + 1)^2`.
pub open spec fn sqrt_floor(n: int) -> int {
    choose|r: int| is_isqrt(n, r)
}

/// The arcsine polynomial, valid on small arguments.
pub open spec fn asin_poly(u: int) -> int {
    let s = SCALE_Q as int;
    let u2 = u * u / s;
    let u3 = u2 * u / s;
    let u5 = u3 * u2 / s;
    let u7 = u5 * u2 / s;
    u + u3 / 6 + 3 * u5 / 40 + 15 * u7 / 336
}

/// The arcsine of `t / SCALE_Q` in scaled radians, through the
/// complementary angle when `t` is large.
pub open spec fn asin_q(t: int) -> int {
    if t <= ASIN_SPLIT_Q as int {
        asin_poly(t)
    } else {
        QUARTER_TURN_Q as int - asin_poly(sqrt_floor(SCALE_SQ as int - t * t))
    }
}

/// The haversine distance in meters between two points given in
/// `10^7`-scaled degrees.
pub open spec fn hav_dist(lat1: int, lon1: int, lat2: int, lon2: int) -> int {
    let a = hav_a(lat1, lon1, lat2, lon2);
    let c = 2 * asin_q(sqrt_floor(a * (SCALE_Q as int)));
    (EARTH_RADIUS_M as int) * c / (SCALE_Q as int)
}

/// `a / c <= b` whenever `a <= b * c`.
proof fn lemma_div_le_bound(a: int, c: int, b: int)
    requires
        0 <= a,
        0 < c,
        a <= b * c,
    ensures
        0 <= a / c <= b,
{
    lemma_div_pos_is_pos(a, c);
    lemma_div_is_ordered(a, b * c, c);
    lemma_div_multiples_vanish(b, c);
    assert(b * c == c * b) by (nonlinear_arith);
}

/// Two integer square roots of the same number are equal.
proof fn lemma_isqrt_unique(n: int, a: int, b: int)
    requires
        is_isqrt(n, a),
        is_isqrt(n, b),
    ensures
        a == b,
{
    assert(a == b) by (nonlinear_arith)
        requires
            a >= 0 && a * a <= n && n < (a + 1) * (a + 1),
            b >= 0 && b * b <= n && n < (b + 1) * (b + 1),
    ;
}

/// The integer square root, by bisection.
pub fn isqrt_u(n: u128) -> (r: u64)
    requires
        n <= SCALE_SQ,
    ensures
        is_isqrt(n as int, r as int),
        r as int == sqrt_floor(n as int),
        r <= SCALE_Q,
{
    let mut lo: u64 = 0;
    let mut hi: u64 = 1_073_741_824;
    proof {
        assert((1_073_741_824 as int) * (1_073_741_824 as int) > SCALE_SQ as int) by (
        nonlinear_arith);
    }
    while lo + 1 < hi
        invariant
            lo < hi <= 1_073_741_824,
            (lo as int) * (lo as int) <= n as int,
            (n as int) < (hi as int) * (hi as int),
        decreases hi - lo,
    {
        let mid = lo + (hi - lo) / 2;
        proof {
            assert((mid as int) * (mid as int) <= 1_073_741_824 * 1_073_741_824) by (
            nonlinear_arith)
                requires
                    0 <= mid as int <= 1_073_741_824,
            ;
        }
        if (mid as u128) * (mid as u128) <= n {
            lo = mid;
        } else {
            hi = mid;
        }
    }
    proof {
        assert(is_isqrt(n as int, lo as int));
        lemma_isqrt_unique(n as int, lo as int, sqrt_floor(n as int));
        if lo > SCALE_Q {
            assert((lo as int) * (lo as int) > SCALE_SQ as int) by (nonlinear_arith)
                requires
                    lo as int > SCALE_Q as int,
            ;
        }
    }
    lo
}

/// The sine polynomial on `[0, QUARTER_TURN_Q]`.
fn sin_poly_x(x: u64) -> (r: u64)
    requires
        x <= QUARTER_TURN_Q,
    ensures
        r as int == sin_poly(x as int),
        r <= SCALE_Q,
{
    let s: u128 = SCALE_Q as u128;
    let xi = x as u128;
    proof {
        assert((xi as int) * (xi as int) <= 2_467_401_101 * (SCALE_Q as int)) by (nonlinear_arith)
            requires
                0 <= xi as int <= QUARTER_TURN_Q as int,
        ;
        lemma_div_le_bound((xi as int) * (xi as int), SCALE_Q as int, 2_467_401_101);
    }
    let x2 = xi * xi / s;
    proof {
        assert((x2 as int) * (xi as int) <= 3_875_784_587 * (SCALE_Q as int)) by (nonlinear_arith)
            requires
                0 <= x2 as int <= 2_467_401_101,
                0 <= xi as int <= QUARTER_TURN_Q as int,
        ;
        lemma_div_le_bound((x2 as int) * (xi as int), SCALE_Q as int, 3_875_784_587);
    }
    let x3 = x2 * xi / s;
    proof {
        assert((x3 as int) * (x2 as int) <= 9_563_115_158 * (SCALE_Q as int)) by (nonlinear_arith)
            requires
                0 <= x3 as int <= 3_875_784_587,
                0 <= x2 as int <= 2_467_401_101,
        ;
        lemma_div_le_bound((x3 as int) * (x2 as int), SCALE_Q as int, 9_563_115_158);
    }
    let x5 = x3 * x2 / s;
    proof {
        lemma_div_le_bound(x5 as int, 120, 79_692_627);
        // x3 <= 6 * x, so x3 / 6 <= x and the subtraction stays nonnegative.
        assert((x2 as int) * (xi as int) <= 6 * (xi as int) * (SCALE_Q as int)) by (nonlinear_arith)
            requires
                0 <= xi as int <= QUARTER_TURN_Q as int,
                0 <= x2 as int <= 2_467_401_101,
                SCALE_Q == 1_000_000_000u64,
        ;
        lemma_div_le_bound((x2 as int) * (xi as int), SCALE_Q as int, 6 * (xi as int));
        lemma_div_le_bound(x3 as int, 6, xi as int);
    }
    let t = xi + x5 / 120;
    let v = t - x3 / 6;
    let r: u64 = if v > s {
        SCALE_Q
    } else {
        v as u64
    };
    r
}

/// `|sin|` on `[0, FULL_TURN_Q)`.
fn abs_sin_x(y: u64) -> (r: u64)
    requires
        y < FULL_TURN_Q,
    ensures
        r as int == abs_sin(y as int),
        r <= SCALE_Q,
{
    if y < QUARTER_TURN_Q {
        sin_poly_x(y)
    } else if y < 2 * QUARTER_TURN_Q {
        sin_poly_x(2 * QUARTER_TURN_Q - y)
    } else if y < 3 * QUARTER_TURN_Q {
        sin_poly_x(y - 2 * QUARTER_TURN_Q)
    } else {
        sin_poly_x(4 * QUARTER_TURN_Q - y)
    }
}

/// `sin^2(d / 2)` scaled by `SCALE_Q`.
fn half_sin_sq_x(d: u128) -> (r: u64)
    ensures
        r as int == half_sin_sq(d as int),
        r <= SCALE_Q,
{
    let h = d / 2;
    proof {
        lemma_mod_bound(h as int, FULL_TURN_Q as int);
    }
    let y = (h % (FULL_TURN_Q as u128)) as u64;
    let sv = abs_sin_x(y);
    proof {
        assert((sv as int) * (sv as int) <= (SCALE_Q as int) * (SCALE_Q as int)) by (
        nonlinear_arith)
            requires
                0 <= sv as int <= SCALE_Q as int,
        ;
        lemma_div_le_bound((sv as int) * (sv as int), SCALE_Q as int, SCALE_Q as int);
    }
    let r = (sv as u128) * (sv as u128) / (SCALE_Q as u128);
    r as u64
}

/// `|a - b|` over the full `i64` range.
fn abs_diff(a: i64, b: i64) -> (r: u128)
    ensures
        r as int == abs_i(a as int - b as int),
{
    let d = a as i128 - b as i128;
    if d < 0 {
        (-d) as u128
    } else {
        d as u128
    }
}

/// A nonnegative `10^7`-scaled degree difference as scaled radians.
fn rad_of_e7_x(d: u128) -> (r: u128)
    requires
        d < 0x2_0000_0000_0000_0000,
    ensures
        r as int == rad_of_e7(d as int),
{
    proof {
        assert((d as int) * (RAD_PER_E7_NUM as int) < 0x2_0000_0000_0000_0000 * 0x1_0000_0000) by (
        nonlinear_arith)
            requires
                0 <= d as int && (d as int) < 0x2_0000_0000_0000_0000,
        ;
        lemma_div_pos_is_pos((d as int) * (RAD_PER_E7_NUM as int), RAD_PER_E7_DEN as int);
    }
    d * (RAD_PER_E7_NUM as u128) / (RAD_PER_E7_DEN as u128)
}

/// The signed cosine of a latitude in `10^7`-scaled degrees.
fn cos_signed_x(lat_e7: i64) -> (r: i64)
    ensures
        r as int == cos_signed(lat_e7 as int),
        -(SCALE_Q as int) <= r as int <= SCALE_Q as int,
{
    let a = abs_diff(lat_e7, 0);
    let x = rad_of_e7_x(a);
    proof {
        lemma_mod_bound(x as int, FULL_TURN_Q as int);
    }
    let y = (x % (FULL_TURN_Q as u128)) as u64;
    if y < QUARTER_TURN_Q {
        let m = sin_poly_x(QUARTER_TURN_Q - y);
        m as i64
    } else if y < 2 * QUARTER_TURN_Q {
        let m = sin_poly_x(y - QUARTER_TURN_Q);
        -(m as i64)
    } else if y < 3 * QUARTER_TURN_Q {
        let m = sin_poly_x(3 * QUARTER_TURN_Q - y);
        -(m as i64)
    } else {
        let m = sin_poly_x(y - 3 * QUARTER_TURN_Q);
        m as i64
    }
}

/// The haversine intermediate `a`, clamped into `[0, SCALE_Q]`.
fn hav_a_x(lat1: i64, lon1: i64, lat2: i64, lon2: i64) -> (r: u64)
    ensures
        r as int == hav_a(lat1 as int, lon1 as int, lat2 as int, lon2 as int),
        r <= SCALE_Q,
{
    let hs_lat = half_sin_sq_x(rad_of_e7_x(abs_diff(lat1, lat2)));
    let hs_lon = half_sin_sq_x(rad_of_e7_x(abs_diff(lon1, lon2)));
    let c1 = cos_signed_x(lat1);
    let c2 = cos_signed_x(lat2);
    let m1 = (if c1 < 0 {
        -(c1 as i128)
    } else {
        c1 as i128
    }) as u128;
    let m2 = (if c2 < 0 {
        -(c2 as i128)
    } else {
        c2 as i128
    }) as u128;
    proof {
        assert((m1 as int) * (m2 as int) <= SCALE_SQ as int) by (nonlinear_arith)
            requires
                0 <= m1 as int <= SCALE_Q as int,
                0 <= m2 as int <= SCALE_Q as int,
                SCALE_SQ == 1_000_000_000_000_000_000u128,
                SCALE_Q == 1_000_000_000u64,
        ;
        assert((m1 as int) * (m2 as int) * (hs_lon as int) <= (SCALE_Q as int) * (SCALE_SQ as int))
            by (nonlinear_arith)
            requires
                0 <= (m1 as int) * (m2 as int) <= SCALE_SQ as int,
                0 <= hs_lon as int <= SCALE_Q as int,
        ;
        lemma_div_le_bound(
            (m1 as int) * (m2 as int) * (hs_lon as int),
            SCALE_SQ as int,
            SCALE_Q as int,
        );
    }
    let t = (m1 * m2 * (hs_lon as u128) / SCALE_SQ) as u64;
    let neg = (c1 < 0) != (c2 < 0);
    let a0: u64 = if neg {
        if t > hs_lat {
            0
        } else {
            hs_lat - t
        }
    } else {
        hs_lat + t
    };
    if a0 > SCALE_Q {
        SCALE_Q
    } else {
        a0
    }
}

/// The haversine distance in meters between two `10^7`-scaled points.
pub fn haversine_m(lat1: i64, lon1: i64, lat2: i64, lon2: i64) -> (r: u64)
    ensures
        r as int == hav_dist(lat1 as int, lon1 as int, lat2 as int, lon2 as int),
        r <= 20_100_000,
{
    let a = hav_a_x(lat1, lon1, lat2, lon2);
    proof {
        assert((a as int) * (SCALE_Q as int) <= SCALE_SQ as int) by (nonlinear_arith)
            requires
                0 <= a as int <= SCALE_Q as int,
                SCALE_SQ == 1_000_000_000_000_000_000u128,
                SCALE_Q == 1_000_000_000u64,
        ;
    }
    let sa = isqrt_u((a as u128) * (SCALE_Q as u128));
    proof {
        if sa > SCALE_Q {
            assert((sa as int) * (sa as int) > SCALE_SQ as int) by (nonlinear_arith)
                requires
                    sa as int > SCALE_Q as int,
            ;
        }
    }
    let c: u64 = 2 * asin_q_x(sa);
    proof {
        assert((EARTH_RADIUS_M as int) * (c as int) <= 20_100_000 * (SCALE_Q as int)) by (
        nonlinear_arith)
            requires
                0 <= c as int <= 2 * (QUARTER_TURN_Q as int),
        ;
        lemma_div_le_bound((EARTH_RADIUS_M as int) * (c as int), SCALE_Q as int, 20_100_000);
    }
    let d = (EARTH_RADIUS_M as u128) * (c as u128) / (SCALE_Q as u128);
    d as u64
}

/// The arcsine polynomial on small arguments.
fn asin_poly_x(u: u64) -> (r: u64)
    requires
        u <= 707_106_790,
    ensures
        r as int == asin_poly(u as int),
        r <= 790_000_000,
{
    let s: u128 = SCALE_Q as u128;
    let ui = u as u128;
    proof {
        assert((ui as int) * (ui as int) <= 500_000_013 * (SCALE_Q as int)) by (nonlinear_arith)
            requires
                0 <= ui as int <= 707_106_790,
        ;
        lemma_div_le_bound((ui as int) * (ui as int), SCALE_Q as int, 500_000_013);
    }
    let u2 = ui * ui / s;
    proof {
        assert((u2 as int) * (ui as int) <= 353_553_405 * (SCALE_Q as int)) by (nonlinear_arith)
            requires
                0 <= u2 as int <= 500_000_013,
                0 <= ui as int <= 707_106_790,
        ;
        lemma_div_le_bound((u2 as int) * (ui as int), SCALE_Q as int, 353_553_405);
    }
    let u3 = u2 * ui / s;
    proof {
        assert((u3 as int) * (u2 as int) <= 176_776_708 * (SCALE_Q as int)) by (nonlinear_arith)
            requires
                0 <= u3 as int <= 353_553_405,
                0 <= u2 as int <= 500_000_013,
        ;
        lemma_div_le_bound((u3 as int) * (u2 as int), SCALE_Q as int, 176_776_708);
    }
    let u5 = u3 * u2 / s;
    proof {
        assert((u5 as int) * (u2 as int) <= 88_388_357 * (SCALE_Q as int)) by (nonlinear_arith)
            requires
                0 <= u5 as int <= 176_776_708,
                0 <= u2 as int <= 500_000_013,
        ;
        lemma_div_le_bound((u5 as int) * (u2 as int), SCALE_Q as int, 88_388_363);
        lemma_div_le_bound(u3 as int, 6, 58_925_568);
    }
    let u7 = u5 * u2 / s;
    proof {
        lemma_div_le_bound(3 * (u5 as int), 40, 13_258_254);
        lemma_div_le_bound(15 * (u7 as int), 336, 3_946_000);
    }
    let r = ui + u3 / 6 + 3 * u5 / 40 + 15 * u7 / 336;
    r as u64
}

/// The arcsine of `t / SCALE_Q` in scaled radians.
fn asin_q_x(t: u64) -> (r: u64)
    requires
        t <= SCALE_Q,
    ensures
        r as int == asin_q(t as int),
        r <= QUARTER_TURN_Q,
{
    if t <= ASIN_SPLIT_Q {
        asin_poly_x(t)
    } else {
        proof {
            assert((t as int) * (t as int) <= SCALE_SQ as int && (t as int) * (t as int)
                >= 500_000_001_150_395_524) by (nonlinear_arith)
                requires
                    707_106_781 < t as int <= SCALE_Q as int,
                    SCALE_SQ == 1_000_000_000_000_000_000u128,
                    SCALE_Q == 1_000_000_000u64,
            ;
        }
        let tt = (t as u128) * (t as u128);
        let d = SCALE_SQ - tt;
        let comp = isqrt_u(d);
        proof {
            if comp > 707_106_790 {
                assert((comp as int) * (comp as int) > 499_999_998_849_604_476) by (
                nonlinear_arith)
                    requires
                        comp as int > 707_106_790,
                ;
            }
        }
        let p = asin_poly_x(comp);
        QUARTER_TURN_Q - p
    }
}

/// The envelope half-width in `10^7`-scaled degrees for a radius in
/// meters: the radius divided by 111,000 meters per degree.
pub open spec fn deg_of_radius(r: int) -> int {
    r * 10_000_000 / 111_000
}

/// The envelope half-width for a nonnegative radius.
pub fn deg_of_radius_x(radius_m: i64) -> (d: u128)
    requires
        radius_m >= 0,
    ensures
        d as int == deg_of_radius(radius_m as int),
{
    proof {
        lemma_div_pos_is_pos((radius_m as int) * 10_000_000, 111_000);
        assert((radius_m as int) * 10_000_000 < 0x8000_0000_0000_0000 * 0x1000_0000) by (
        nonlinear_arith)
            requires
                0 <= radius_m as int && (radius_m as int) < 0x8000_0000_0000_0000,
        ;
    }
    (radius_m as u128) * 10_000_000 / 111_000
}

/// A wider radius never narrows the envelope.
pub proof fn lemma_deg_monotone(r1: int, r2: int)
    requires
        0 <= r1 <= r2,
    ensures
        deg_of_radius(r1) <= deg_of_radius(r2),
{
    assert(r1 * 10_000_000 <= r2 * 10_000_000) by (nonlinear_arith)
        requires
            0 <= r1 <= r2,
    ;
    lemma_div_is_ordered(r1 * 10_000_000, r2 * 10_000_000, 111_000);
}

/// `lat - d` clamped into the `i64` range.
pub fn sat_sub_i64(c: i64, d: u128) -> (r: i64)
    ensures
        r as int == if c as int - d as int >= i64::MIN as int {
            c as int - d as int
        } else {
            i64::MIN as int
        },
{
    if d > 0x1_0000_0000_0000_0000 {
        i64::MIN
    } else {
        let v = c as i128 - d as i128;
        if v < i64::MIN as i128 {
            i64::MIN
        } else {
            v as i64
        }
    }
}

/// `lat + d` clamped into the `i64` range.
pub fn sat_add_i64(c: i64, d: u128) -> (r: i64)
    ensures
        r as int == if c as int + d as int <= i64::MAX as int {
            c as int + d as int
        } else {
            i64::MAX as int
        },
{
    if d > 0x1_0000_0000_0000_0000 {
        i64::MAX
    } else {
        let v = c as i128 + d as i128;
        if v > i64::MAX as i128 {
            i64::MAX
        } else {
            v as i64
        }
    }
}

} // verus!
