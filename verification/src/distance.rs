//! Great-circle distance on a spherical Earth, in pure integer arithmetic.
//!
//! Angles are carried in microdegrees (millionths of a degree). Trigonometric
//! values are fixed-point integers scaled by `TRIG_ONE`. The distance follows
//! the haversine formula with a mean Earth radius of `EARTH_RADIUS_M` meters:
//! sines come from a truncated Taylor polynomial, the central angle from an
//! arctangent with range reduction, and the result is meters, rounded down.

use vstd::prelude::*;
use vstd::arithmetic::div_mod::{
    lemma_div_is_ordered, lemma_div_multiples_vanish, lemma_mod_add_multiples_vanish,
    lemma_mod_bound,
};
use vstd::arithmetic::mul::{lemma_mul_inequality, lemma_mul_upper_bound};

verus! {

/// Fixed-point scale of trigonometric values: this value stands for 1.0.
pub const TRIG_ONE: u64 = 1_000_000_000;

/// Pi scaled by `TRIG_ONE`, rounded down.
pub const PI_FP: u64 = 3_141_592_653;

/// Pi/2 scaled by `TRIG_ONE`, rounded down.
pub const HALF_PI_FP: u64 = 1_570_796_326;

/// Pi/4 scaled by `TRIG_ONE`, rounded down.
pub const QUARTER_PI_FP: u64 = 785_398_163;

/// tan(pi/8) scaled by `TRIG_ONE`, rounded down.
pub const TAN_EIGHTH_PI_FP: u64 = 414_213_562;

/// Microdegrees in a full turn of longitude.
pub const FULL_TURN_UDEG: u64 = 360_000_000;

/// Microdegrees in half a turn.
pub const HALF_TURN_UDEG: u64 = 180_000_000;

/// Microdegrees in a quarter turn.
pub const QUARTER_TURN_UDEG: u64 = 90_000_000;

/// Mean Earth radius in meters of the spherical model.
pub const EARTH_RADIUS_M: u64 = 6_371_000;

/// A geographic coordinate in microdegrees. Latitude is meaningful in
/// [-90_000_000, 90_000_000] and longitude in [-180_000_000, 180_000_000],
/// but any values are accepted: latitudes are clamped to the poles and
/// longitudes are wrapped around a full turn before use.
#[derive(Clone, Copy, PartialEq, Eq, Structural, Debug)]
pub struct Coordinate {
    pub lat_udeg: i64,
    pub lon_udeg: i64,
}

/// Absolute value of a mathematical integer.
pub open spec fn abs_val(x: int) -> int {
    if x < 0 {
        -x
    } else {
        x
    }
}

/// Latitudes outside the physical range are pulled to the nearest pole.
pub open spec fn clamp_lat_spec(lat: int) -> int {
    if lat > 90_000_000 {
        90_000_000
    } else if lat < -90_000_000 {
        -90_000_000
    } else {
        lat
    }
}

/// Longitude folded into [0, 360_000_000) by wrapping whole turns.
pub open spec fn norm_lon_spec(lon: int) -> int {
    lon % 360_000_000
}

/// Fixed-point sine of an angle given in microdegrees, for angles in
/// [0, 90_000_000]: the angle is converted to radians scaled by `TRIG_ONE`
/// and fed to a truncated Taylor polynomial in Horner form, and the result
/// is capped at `TRIG_ONE`.
pub open spec fn sin_fp_spec(x: int) -> int {
    let r: int = x * 3_141_592_653 / 180_000_000;
    let q: int = r * r / 1_000_000_000;
    let u0: int = 1_000_000_000 - q / 110;
    let u1: int = 1_000_000_000 - q * u0 / 72_000_000_000;
    let u2: int = 1_000_000_000 - q * u1 / 42_000_000_000;
    let u3: int = 1_000_000_000 - q * u2 / 20_000_000_000;
    let u4: int = 1_000_000_000 - q * u3 / 6_000_000_000;
    let v: int = r * u4 / 1_000_000_000;
    if v > 1_000_000_000 {
        1_000_000_000
    } else {
        v
    }
}

/// Rounded-down integer square root.
pub open spec fn isqrt_spec(x: nat) -> nat
    decreases x,
{
    if x == 0 {
        0
    } else {
        let p: nat = isqrt_spec((x - 1) as nat);
        if (p + 1) * (p + 1) <= x {
            p + 1
        } else {
            p
        }
    }
}

/// Fixed-point arctangent of w / `TRIG_ONE` for w in [0, tan(pi/8)] scaled,
/// by a truncated Taylor polynomial in Horner form.
pub open spec fn atan_small_spec(w: int) -> int {
    let q: int = w * w / 1_000_000_000;
    let v0: int = 1_000_000_000int / 9 - q / 11;
    let v1: int = 1_000_000_000int / 7 - q * v0 / 1_000_000_000;
    let v2: int = 1_000_000_000int / 5 - q * v1 / 1_000_000_000;
    let v3: int = 1_000_000_000int / 3 - q * v2 / 1_000_000_000;
    w - w * (q * v3 / 1_000_000_000) / 1_000_000_000
}

/// Fixed-point arctangent of z / `TRIG_ONE` for z in [0, `TRIG_ONE`]: above
/// tan(pi/8) the argument is reduced through atan(z) = pi/4 - atan((1-z)/(1+z)).
pub open spec fn atan_unit_spec(z: int) -> int {
    if z <= 414_213_562 {
        atan_small_spec(z)
    } else {
        785_398_163 - atan_small_spec((1_000_000_000 - z) * 1_000_000_000 / (1_000_000_000 + z))
    }
}

/// Fixed-point angle of the point (x, y) in the closed first quadrant,
/// for y and x in [0, `TRIG_ONE`], not both zero; zero when y is zero.
pub open spec fn atan2_fp_spec(y: int, x: int) -> int {
    if y == 0 {
        0
    } else if y <= x {
        atan_unit_spec(y * 1_000_000_000 / x)
    } else {
        1_570_796_326 - atan_unit_spec(x * 1_000_000_000 / y)
    }
}

/// Great-circle distance in meters between two coordinates given in
/// microdegrees, on a sphere of radius `EARTH_RADIUS_M`, rounded down:
/// the haversine formula evaluated in fixed-point integer arithmetic.
pub open spec fn gc_meters_spec(lat1: int, lon1: int, lat2: int, lon2: int) -> int {
    let la1: int = clamp_lat_spec(lat1);
    let la2: int = clamp_lat_spec(lat2);
    let dphi: int = abs_val(la1 - la2);
    let n1: int = norm_lon_spec(lon1);
    let n2: int = norm_lon_spec(lon2);
    let dl0: int = abs_val(n1 - n2);
    let dl: int = if dl0 > 180_000_000 {
        360_000_000 - dl0
    } else {
        dl0
    };
    let hphi: int = sin_fp_spec(dphi / 2);
    let hlam: int = sin_fp_spec(dl / 2);
    let c1: int = sin_fp_spec(90_000_000 - abs_val(la1));
    let c2: int = sin_fp_spec(90_000_000 - abs_val(la2));
    let af: int = hphi * hphi / 1_000_000_000 + (c1 * c2 / 1_000_000_000) * (hlam * hlam
        / 1_000_000_000) / 1_000_000_000;
    let a: int = if af > 1_000_000_000 {
        1_000_000_000
    } else {
        af
    };
    let y: int = isqrt_spec((a * 1_000_000_000) as nat) as int;
    let x: int = isqrt_spec(((1_000_000_000 - a) * 1_000_000_000) as nat) as int;
    let c: int = 2 * atan2_fp_spec(y, x);
    6_371_000 * c / 1_000_000_000
}

/// Great-circle distance in whole kilometers, rounded down.
pub open spec fn gc_km_spec(lat1: int, lon1: int, lat2: int, lon2: int) -> int {
    gc_meters_spec(lat1, lon1, lat2, lon2) / 1000
}

/// Latitude clamped to the physical range.
pub fn clamp_lat(lat: i64) -> (r: i64)
    ensures
        r as int == clamp_lat_spec(lat as int),
        -90_000_000 <= r <= 90_000_000,
{
    if lat > 90_000_000 {
        90_000_000
    } else if lat < -90_000_000 {
        -90_000_000
    } else {
        lat
    }
}

/// Longitude wrapped into [0, 360_000_000).
pub fn norm_lon(lon: i64) -> (r: u64)
    ensures
        r as int == norm_lon_spec(lon as int),
        r < 360_000_000,
{
    let m: u64 = FULL_TURN_UDEG;
    if lon >= 0 {
        let r: u64 = (lon as u64) % m;
        proof {
            lemma_mod_bound(lon as int, m as int);
        }
        r
    } else {
        // -lon through i128 so that i64::MIN is in range too
        let neg: u64 = (-(lon as i128)) as u64;
        let k: u64 = neg % m;
        proof {
            lemma_mod_bound(neg as int, m as int);
            lemma_neg_mod(lon as int, neg as int, m as int);
        }
        if k == 0 {
            0
        } else {
            m - k
        }
    }
}

/// For n == -x with x < 0: x mod m is m - (n mod m) when that remainder is
/// not zero, and zero otherwise.
proof fn lemma_neg_mod(x: int, n: int, m: int)
    requires
        0 < m,
        n == -x,
        x < 0,
    ensures
        n % m == 0 ==> x % m == 0,
        n % m != 0 ==> x % m == m - (n % m),
{
    let q: int = n / m;
    let k: int = n % m;
    vstd::arithmetic::div_mod::lemma_fundamental_div_mod(n, m);
    lemma_mod_bound(n, m);
    assert(n == m * q + k);
    assert(x == m * (-q) + (-k)) by (nonlinear_arith)
        requires
            n == m * q + k,
            x == -n,
    ;
    if k == 0 {
        vstd::arithmetic::div_mod::lemma_mod_multiples_vanish(-q, 0, m);
        vstd::arithmetic::div_mod::lemma_small_mod(0nat, m as nat);
        assert(x % m == 0int % m);
    } else {
        assert(x == m * (-q - 1) + (m - k)) by (nonlinear_arith)
            requires
                x == m * (-q) + (-k),
        ;
        vstd::arithmetic::div_mod::lemma_mod_multiples_vanish(-q - 1, m - k, m);
        vstd::arithmetic::div_mod::lemma_small_mod((m - k) as nat, m as nat);
        assert(x % m == (m - k) % m);
    }
}

/// Fixed-point sine of an angle in microdegrees, up to a quarter turn.
pub fn sin_fp(x: u64) -> (s: u64)
    requires
        x <= 90_000_000,
    ensures
        s as int == sin_fp_spec(x as int),
        s <= 1_000_000_000,
{
    proof {
        lemma_mul_inequality(x as int, 90_000_000, 3_141_592_653);
    }
    let rr: u64 = x * PI_FP;
    let r: u64 = rr / HALF_TURN_UDEG;
    proof {
        lemma_div_is_ordered(rr as int, 90_000_000int * 3_141_592_653, 180_000_000);
        assert(r <= 1_570_796_326);
        lemma_mul_upper_bound(r as int, 1_570_796_326, r as int, 1_570_796_326);
    }
    let q: u64 = r * r / TRIG_ONE;
    proof {
        lemma_div_is_ordered((r * r) as int, 1_570_796_326int * 1_570_796_326, 1_000_000_000);
        assert(q <= 2_467_401_097);
        lemma_div_is_ordered(q as int, 2_467_401_097, 110);
    }
    let u0: u64 = TRIG_ONE - q / 110;
    proof {
        lemma_mul_upper_bound(q as int, 2_467_401_097, u0 as int, 1_000_000_000);
        lemma_div_is_ordered((q * u0) as int, 2_467_401_097int * 1_000_000_000, 72_000_000_000);
    }
    let u1: u64 = TRIG_ONE - q * u0 / 72_000_000_000;
    proof {
        lemma_mul_upper_bound(q as int, 2_467_401_097, u1 as int, 1_000_000_000);
        lemma_div_is_ordered((q * u1) as int, 2_467_401_097int * 1_000_000_000, 42_000_000_000);
    }
    let u2: u64 = TRIG_ONE - q * u1 / 42_000_000_000;
    proof {
        lemma_mul_upper_bound(q as int, 2_467_401_097, u2 as int, 1_000_000_000);
        lemma_div_is_ordered((q * u2) as int, 2_467_401_097int * 1_000_000_000, 20_000_000_000);
    }
    let u3: u64 = TRIG_ONE - q * u2 / 20_000_000_000;
    proof {
        lemma_mul_upper_bound(q as int, 2_467_401_097, u3 as int, 1_000_000_000);
        lemma_div_is_ordered((q * u3) as int, 2_467_401_097int * 1_000_000_000, 6_000_000_000);
    }
    let u4: u64 = TRIG_ONE - q * u3 / 6_000_000_000;
    proof {
        lemma_mul_upper_bound(r as int, 1_570_796_326, u4 as int, 1_000_000_000);
    }
    let v: u64 = r * u4 / TRIG_ONE;
    if v > TRIG_ONE {
        TRIG_ONE
    } else {
        v
    }
}

/// The rounded-down square root is the unique r with r*r <= x < (r+1)*(r+1).
proof fn lemma_isqrt_spec_bounds(x: nat)
    ensures
        isqrt_spec(x) * isqrt_spec(x) <= x,
        x < (isqrt_spec(x) + 1) * (isqrt_spec(x) + 1),
    decreases x,
{
    if x > 0 {
        lemma_isqrt_spec_bounds((x - 1) as nat);
        let p: nat = isqrt_spec((x - 1) as nat);
        assert(p * p <= x - 1);
        assert(x - 1 < (p + 1) * (p + 1));
        if (p + 1) * (p + 1) <= x {
            assert(isqrt_spec(x) == p + 1);
            assert(x < (p + 2) * (p + 2)) by (nonlinear_arith)
                requires
                    x - 1 < (p + 1) * (p + 1),
                    (p + 1) * (p + 1) <= x,
            ;
            assert(isqrt_spec(x) * isqrt_spec(x) <= x);
            assert(x < (isqrt_spec(x) + 1) * (isqrt_spec(x) + 1)) by (nonlinear_arith)
                requires
                    isqrt_spec(x) == p + 1,
                    x < (p + 2) * (p + 2),
            ;
        } else {
            assert(isqrt_spec(x) == p);
            assert(p * p <= x - 1);
        }
    } else {
        assert(isqrt_spec(0nat) == 0);
        assert((0 + 1) * (0 + 1) == 1) by (nonlinear_arith);
    }
}

/// A value enclosed by the square bounds equals the rounded-down square root.
proof fn lemma_isqrt_unique(x: nat, r: nat)
    requires
        r * r <= x,
        (x as int) < (r as int + 1) * (r as int + 1),
    ensures
        r == isqrt_spec(x),
{
    lemma_isqrt_spec_bounds(x);
    let s: nat = isqrt_spec(x);
    assert(r == s) by (nonlinear_arith)
        requires
            r * r <= x,
            (x as int) < (r as int + 1) * (r as int + 1),
            s * s <= x,
            x < (s + 1) * (s + 1),
    ;
}

/// Rounded-down integer square root, by binary search.
pub fn isqrt(x: u64) -> (r: u64)
    ensures
        r as nat == isqrt_spec(x as nat),
        (r as int) * (r as int) <= x as int,
        (x as int) < (r as int + 1) * (r as int + 1),
{
    let mut lo: u64 = 0;
    let mut hi: u64 = 4_294_967_296;
    proof {
        assert((hi as int) * (hi as int) > x as int);
    }
    while lo + 1 < hi
        invariant
            lo < hi <= 4_294_967_296,
            (lo as int) * (lo as int) <= x as int,
            (x as int) < (hi as int) * (hi as int),
        decreases hi - lo,
    {
        let mid: u64 = lo + (hi - lo) / 2;
        assert(lo < mid < hi);
        proof {
            lemma_mul_upper_bound(mid as int, 4_294_967_295, mid as int, 4_294_967_295);
        }
        if mid * mid <= x {
            lo = mid;
        } else {
            hi = mid;
        }
    }
    proof {
        lemma_isqrt_unique(x as nat, lo as nat);
    }
    lo
}

/// Fixed-point arctangent for small arguments, up to tan(pi/8) scaled.
pub fn atan_small(w: u64) -> (a: u64)
    requires
        w <= 414_213_562,
    ensures
        a as int == atan_small_spec(w as int),
        a <= w,
{
    proof {
        lemma_mul_upper_bound(w as int, 414_213_562, w as int, 414_213_562);
        lemma_div_is_ordered((w * w) as int, 414_213_562int * 414_213_562, 1_000_000_000);
    }
    let q: u64 = w * w / TRIG_ONE;
    proof {
        assert(q <= 171_572_875);
        lemma_div_is_ordered(q as int, 171_572_875, 11);
    }
    let v0: u64 = TRIG_ONE / 9 - q / 11;
    proof {
        lemma_mul_upper_bound(q as int, 171_572_875, v0 as int, 111_111_111);
        lemma_div_is_ordered((q * v0) as int, 171_572_875int * 111_111_111, 1_000_000_000);
    }
    let v1: u64 = TRIG_ONE / 7 - q * v0 / TRIG_ONE;
    proof {
        lemma_mul_upper_bound(q as int, 171_572_875, v1 as int, 142_857_142);
        lemma_div_is_ordered((q * v1) as int, 171_572_875int * 142_857_142, 1_000_000_000);
    }
    let v2: u64 = TRIG_ONE / 5 - q * v1 / TRIG_ONE;
    proof {
        lemma_mul_upper_bound(q as int, 171_572_875, v2 as int, 200_000_000);
        lemma_div_is_ordered((q * v2) as int, 171_572_875int * 200_000_000, 1_000_000_000);
    }
    let v3: u64 = TRIG_ONE / 3 - q * v2 / TRIG_ONE;
    proof {
        lemma_mul_upper_bound(q as int, 171_572_875, v3 as int, 333_333_333);
        lemma_div_is_ordered((q * v3) as int, 171_572_875int * 333_333_333, 1_000_000_000);
    }
    let m: u64 = q * v3 / TRIG_ONE;
    proof {
        assert(m <= 57_190_958);
        lemma_mul_upper_bound(w as int, 414_213_562, m as int, 57_190_958);
        lemma_mul_inequality(m as int, 1_000_000_000, w as int);
        lemma_div_is_ordered((w * m) as int, (w * 1_000_000_000) as int, 1_000_000_000);
        lemma_div_multiples_vanish(w as int, 1_000_000_000);
        assert((w * m) as int / 1_000_000_000 <= w as int);
    }
    w - w * m / TRIG_ONE
}

/// Fixed-point arctangent on [0, `TRIG_ONE`], with range reduction.
pub fn atan_unit(z: u64) -> (a: u64)
    requires
        z <= 1_000_000_000,
    ensures
        a as int == atan_unit_spec(z as int),
        a <= 785_398_163,
{
    if z <= TAN_EIGHTH_PI_FP {
        let a: u64 = atan_small(z);
        a
    } else {
        let num: u64 = (TRIG_ONE - z) * TRIG_ONE;
        let den: u64 = TRIG_ONE + z;
        let w: u64 = num / den;
        proof {
            lemma_mul_inequality((1_000_000_000 - z) as int, 585_786_437, 1_000_000_000);
            lemma_div_is_ordered(num as int, 585_786_437_000_000_000, den as int);
            lemma_div_is_ordered_by_den(585_786_437_000_000_000, 1_414_213_563, den as int);
            assert(w <= 414_213_562);
        }
        let t: u64 = atan_small(w);
        QUARTER_PI_FP - t
    }
}

/// Dividing a fixed nonnegative numerator by a larger denominator only
/// shrinks the quotient.
proof fn lemma_div_is_ordered_by_den(x: int, d1: int, d2: int)
    requires
        0 <= x,
        0 < d1 <= d2,
    ensures
        x / d2 <= x / d1,
{
    vstd::arithmetic::div_mod::lemma_div_is_ordered_by_denominator(x, d1, d2);
}

/// Fixed-point first-quadrant angle of (x, y), both scaled by `TRIG_ONE`.
pub fn atan2_fp(y: u64, x: u64) -> (a: u64)
    requires
        y <= 1_000_000_000,
        x <= 1_000_000_000,
        y > 0 || x > 0,
    ensures
        a as int == atan2_fp_spec(y as int, x as int),
        a <= 1_570_796_326,
{
    if y == 0 {
        0
    } else if y <= x {
        proof {
            lemma_mul_inequality(y as int, x as int, 1_000_000_000);
            lemma_div_is_ordered((y * 1_000_000_000) as int, (x * 1_000_000_000) as int, x as int);
            lemma_div_multiples_vanish(1_000_000_000, x as int);
            assert((x * 1_000_000_000) as int == (x as int) * 1_000_000_000);
            assert((x as int) * 1_000_000_000 / (x as int) == 1_000_000_000) by {
                vstd::arithmetic::mul::lemma_mul_is_commutative(x as int, 1_000_000_000);
            }
        }
        let z: u64 = y * TRIG_ONE / x;
        atan_unit(z)
    } else {
        proof {
            lemma_mul_inequality(x as int, y as int, 1_000_000_000);
            lemma_div_is_ordered((x * 1_000_000_000) as int, (y * 1_000_000_000) as int, y as int);
            lemma_div_multiples_vanish(1_000_000_000, y as int);
            assert((y as int) * 1_000_000_000 / (y as int) == 1_000_000_000) by {
                vstd::arithmetic::mul::lemma_mul_is_commutative(y as int, 1_000_000_000);
            }
        }
        let z: u64 = x * TRIG_ONE / y;
        let t: u64 = atan_unit(z);
        HALF_PI_FP - t
    }
}

/// Great-circle distance in meters between two coordinates, rounded down.
pub fn distance_meters(a: &Coordinate, b: &Coordinate) -> (d: u64)
    ensures
        d as int == gc_meters_spec(
            a.lat_udeg as int,
            a.lon_udeg as int,
            b.lat_udeg as int,
            b.lon_udeg as int,
        ),
        d <= 20_015_086,
{
    let la1: i64 = clamp_lat(a.lat_udeg);
    let la2: i64 = clamp_lat(b.lat_udeg);
    let dphi: u64 = if la1 >= la2 {
        (la1 - la2) as u64
    } else {
        (la2 - la1) as u64
    };
    let n1: u64 = norm_lon(a.lon_udeg);
    let n2: u64 = norm_lon(b.lon_udeg);
    let dl0: u64 = if n1 >= n2 {
        n1 - n2
    } else {
        n2 - n1
    };
    let dl: u64 = if dl0 > HALF_TURN_UDEG {
        FULL_TURN_UDEG - dl0
    } else {
        dl0
    };
    let hphi: u64 = sin_fp(dphi / 2);
    let hlam: u64 = sin_fp(dl / 2);
    let abs1: u64 = if la1 >= 0 {
        la1 as u64
    } else {
        (-la1) as u64
    };
    let abs2: u64 = if la2 >= 0 {
        la2 as u64
    } else {
        (-la2) as u64
    };
    let c1: u64 = sin_fp(QUARTER_TURN_UDEG - abs1);
    let c2: u64 = sin_fp(QUARTER_TURN_UDEG - abs2);
    proof {
        lemma_mul_upper_bound(hphi as int, 1_000_000_000, hphi as int, 1_000_000_000);
        lemma_mul_upper_bound(c1 as int, 1_000_000_000, c2 as int, 1_000_000_000);
        lemma_mul_upper_bound(hlam as int, 1_000_000_000, hlam as int, 1_000_000_000);
        lemma_div_is_ordered((hphi * hphi) as int, 1_000_000_000int * 1_000_000_000, 1_000_000_000);
        lemma_div_is_ordered((c1 * c2) as int, 1_000_000_000int * 1_000_000_000, 1_000_000_000);
        lemma_div_is_ordered((hlam * hlam) as int, 1_000_000_000int * 1_000_000_000, 1_000_000_000);
    }
    let t1: u64 = hphi * hphi / TRIG_ONE;
    let t2: u64 = c1 * c2 / TRIG_ONE;
    let t3: u64 = hlam * hlam / TRIG_ONE;
    proof {
        lemma_mul_upper_bound(t2 as int, 1_000_000_000, t3 as int, 1_000_000_000);
        lemma_div_is_ordered((t2 * t3) as int, 1_000_000_000int * 1_000_000_000, 1_000_000_000);
    }
    let af: u64 = t1 + t2 * t3 / TRIG_ONE;
    let av: u64 = if af > TRIG_ONE {
        TRIG_ONE
    } else {
        af
    };
    proof {
        lemma_mul_upper_bound(av as int, 1_000_000_000, 1_000_000_000, 1_000_000_000);
        lemma_mul_inequality((1_000_000_000 - av) as int, 1_000_000_000, 1_000_000_000);
    }
    let y: u64 = isqrt(av * TRIG_ONE);
    let x: u64 = isqrt((TRIG_ONE - av) * TRIG_ONE);
    proof {
        lemma_fp_sqrt_in_unit(av as int, y as nat);
        lemma_fp_sqrt_in_unit((1_000_000_000 - av) as int, x as nat);
        lemma_sqrt_not_both_zero(av as int, y as nat, x as nat);
    }
    let c: u64 = 2 * atan2_fp(y, x);
    proof {
        lemma_mul_inequality(c as int, 3_141_592_652, 6_371_000);
        vstd::arithmetic::mul::lemma_mul_is_commutative(c as int, 6_371_000);
        lemma_div_is_ordered((6_371_000 * c) as int, 6_371_000int * 3_141_592_652, 1_000_000_000);
    }
    let d: u64 = EARTH_RADIUS_M * c / TRIG_ONE;
    d
}

/// The square root of a subunit fixed-point value is itself subunit.
proof fn lemma_fp_sqrt_in_unit(a: int, r: nat)
    requires
        0 <= a <= 1_000_000_000,
        r == isqrt_spec((a * 1_000_000_000) as nat),
    ensures
        r <= 1_000_000_000,
{
    lemma_isqrt_spec_bounds((a * 1_000_000_000) as nat);
    if r > 1_000_000_000 {
        lemma_mul_inequality(1_000_000_001, r as int, 1_000_000_001);
        lemma_mul_inequality(1_000_000_001, r as int, r as int);
        assert(1_000_000_001int * 1_000_000_001 <= (r as int) * (r as int));
        assert(false);
    }
}

/// At least one of the two square roots inside the haversine evaluation is
/// positive: their radicands add up to a full square.
proof fn lemma_sqrt_not_both_zero(a: int, y: nat, x: nat)
    requires
        0 <= a <= 1_000_000_000,
        y == isqrt_spec((a * 1_000_000_000) as nat),
        x == isqrt_spec(((1_000_000_000 - a) * 1_000_000_000) as nat),
    ensures
        y > 0 || x > 0,
{
    lemma_isqrt_spec_bounds((a * 1_000_000_000) as nat);
    lemma_isqrt_spec_bounds(((1_000_000_000 - a) * 1_000_000_000) as nat);
    if a >= 500_000_000 {
        assert(a * 1_000_000_000 >= 500_000_000int * 1_000_000_000) by {
            lemma_mul_inequality(500_000_000, a, 1_000_000_000);
        }
        assert(y > 0) by (nonlinear_arith)
            requires
                ((a * 1_000_000_000) as nat) < (y + 1) * (y + 1),
                a * 1_000_000_000 >= 500_000_000int * 1_000_000_000,
        ;
    } else {
        assert((1_000_000_000 - a) * 1_000_000_000 >= 500_000_000int * 1_000_000_000) by {
            lemma_mul_inequality(500_000_000, 1_000_000_000 - a, 1_000_000_000);
        }
        assert(x > 0) by (nonlinear_arith)
            requires
                (((1_000_000_000 - a) * 1_000_000_000) as nat) < (x + 1) * (x + 1),
                (1_000_000_000 - a) * 1_000_000_000 >= 500_000_000int * 1_000_000_000,
        ;
    }
}

/// Great-circle distance in whole kilometers, rounded down.
pub fn distance_km(a: &Coordinate, b: &Coordinate) -> (d: u64)
    ensures
        d as int == gc_km_spec(
            a.lat_udeg as int,
            a.lon_udeg as int,
            b.lat_udeg as int,
            b.lon_udeg as int,
        ),
{
    distance_meters(a, b) / 1000
}

/// The distance is symmetric: swapping the two endpoints changes nothing.
pub proof fn lemma_distance_symmetric(lat1: int, lon1: int, lat2: int, lon2: int)
    ensures
        gc_meters_spec(lat1, lon1, lat2, lon2) == gc_meters_spec(lat2, lon2, lat1, lon1),
{
    let la1: int = clamp_lat_spec(lat1);
    let la2: int = clamp_lat_spec(lat2);
    assert(abs_val(la1 - la2) == abs_val(la2 - la1));
    let n1: int = norm_lon_spec(lon1);
    let n2: int = norm_lon_spec(lon2);
    assert(abs_val(n1 - n2) == abs_val(n2 - n1));
    let c1: int = sin_fp_spec(90_000_000 - abs_val(la1));
    let c2: int = sin_fp_spec(90_000_000 - abs_val(la2));
    assert(c1 * c2 == c2 * c1);
}

/// The distance from a point to itself is zero.
pub proof fn lemma_distance_self_zero(lat: int, lon: int)
    ensures
        gc_meters_spec(lat, lon, lat, lon) == 0,
{
    let la: int = clamp_lat_spec(lat);
    assert(abs_val(la - la) == 0);
    let n: int = norm_lon_spec(lon);
    assert(abs_val(n - n) == 0);
    assert(sin_fp_spec(0) == 0);
    let c1: int = sin_fp_spec(90_000_000 - abs_val(la));
    assert(0 * 0 / 1_000_000_000 == 0);
    assert((c1 * c1 / 1_000_000_000) * 0 / 1_000_000_000 == 0);
    assert(isqrt_spec(0) == 0);
    assert(atan2_fp_spec(0, isqrt_spec(1_000_000_000_000_000_000) as int) == 0);
    assert(6_371_000 * 0 / 1_000_000_000 == 0);
}

/// The distance is invariant under longitude wraparound: shifting either
/// longitude by a full turn of 360 degrees changes nothing.
pub proof fn lemma_distance_lon_wrap(lat1: int, lon1: int, lat2: int, lon2: int)
    ensures
        gc_meters_spec(lat1, lon1, lat2, lon2 + 360_000_000) == gc_meters_spec(
            lat1,
            lon1,
            lat2,
            lon2,
        ),
        gc_meters_spec(lat1, lon1 + 360_000_000, lat2, lon2) == gc_meters_spec(
            lat1,
            lon1,
            lat2,
            lon2,
        ),
{
    lemma_mod_add_multiples_vanish(lon1, 360_000_000);
    lemma_mod_add_multiples_vanish(lon2, 360_000_000);
    assert(norm_lon_spec(lon1 + 360_000_000) == norm_lon_spec(lon1));
    assert(norm_lon_spec(lon2 + 360_000_000) == norm_lon_spec(lon2));
}

} // verus!
