use vstd::prelude::*;
use vstd::arithmetic::div_mod::{lemma_fundamental_div_mod, lemma_div_is_ordered};

verus! {

/// A percentage is held in hundredths of a percent: `7937` is 79.37%.
/// Cubing a scale of 10^4 gives this factor.
pub const CUBE_SCALE: u128 = 1_000_000_000_000;

/// Why a value could not be computed.
#[derive(Debug, Clone, Copy, PartialEq, Eq, Structural)]
pub enum DomainError {
    /// The device's upper bound is not positive, so there is nothing to divide by.
    EmptyRange,
    /// The control has no channel to average over.
    NoChannels,
}

pub open spec fn cube(x: int) -> int {
    x * x * x
}

/// `q` is the whole number nearest to `10^4 * cbrt(n / d)` (a half rounds up),
/// for `n >= 0` and `d > 0`: in hundredths, the percentage of `n` out of `d`.
pub open spec fn is_rounded_cbrt(q: int, n: int, d: int) -> bool {
    q >= 0 && cube(2 * q - 1) * d <= 8 * CUBE_SCALE * n && 8 * CUBE_SCALE * n < cube(2 * q + 1) * d
}

/// `p` is the percentage, in hundredths, of raw volume `raw` out of `max`:
/// the cube root of `raw / max`, times 100, rounded to two decimals; a raw
/// volume below zero maps to the negated percentage of its magnitude.
pub open spec fn is_pct_of(p: int, raw: int, max: int) -> bool {
    if raw >= 0 {
        is_rounded_cbrt(p, raw, max)
    } else {
        is_rounded_cbrt(-p, -raw, max)
    }
}

/// Division that truncates toward zero, for `d > 0`.
pub open spec fn trunc_div(x: int, d: int) -> int {
    if x >= 0 {
        x / d
    } else {
        -((-x) / d)
    }
}

/// The nearest value of `i64` to `x`.
pub open spec fn clamp_i64(x: int) -> int {
    if x > i64::MAX {
        i64::MAX as int
    } else if x < i64::MIN {
        i64::MIN as int
    } else {
        x
    }
}

/// The raw volume for percentage `p` (in hundredths) on a device whose
/// upper bound is `max`: `(p / 100)^3 * max`, truncated toward zero.
pub open spec fn raw_of_pct(p: int, max: int) -> int {
    trunc_div(cube(p) * max, CUBE_SCALE as int)
}

proof fn lemma_cube_monotone(a: int, b: int)
    requires
        a <= b,
    ensures
        cube(a) <= cube(b),
{
    assert(a * a * a <= b * b * b) by (nonlinear_arith)
        requires
            a <= b,
    ;
}

proof fn lemma_floor_div_bounds(x: int, d: int, a: int)
    requires
        x >= 0,
        d > 0,
    ensures
        a <= x / d ==> a * d <= x,
        x / d < a ==> x < a * d,
{
    lemma_fundamental_div_mod(x, d);
    let q = x / d;
    let r = x % d;
    assert(a <= q ==> a * d <= x) by (nonlinear_arith)
        requires
            x == d * q + r,
            0 <= r,
            d > 0,
    ;
    assert(q < a ==> x < a * d) by (nonlinear_arith)
        requires
            x == d * q + r,
            r < d,
            d > 0,
    ;
}

/// Two percentages of the same raw volume are the same.
pub proof fn lemma_pct_unique(p1: int, p2: int, raw: int, max: int)
    requires
        max > 0,
        is_pct_of(p1, raw, max),
        is_pct_of(p2, raw, max),
    ensures
        p1 == p2,
{
    let (q1, q2) = if raw >= 0 {
        (p1, p2)
    } else {
        (-p1, -p2)
    };
    let n = if raw >= 0 {
        raw
    } else {
        -raw
    };
    assert(is_rounded_cbrt(q1, n, max) && is_rounded_cbrt(q2, n, max));
    if q1 < q2 {
        lemma_cube_monotone(2 * q1 + 1, 2 * q2 - 1);
        assert(cube(2 * q1 + 1) * max <= cube(2 * q2 - 1) * max) by (nonlinear_arith)
            requires
                cube(2 * q1 + 1) <= cube(2 * q2 - 1),
                max > 0,
        ;
    } else if q2 < q1 {
        lemma_cube_monotone(2 * q2 + 1, 2 * q1 - 1);
        assert(cube(2 * q2 + 1) * max <= cube(2 * q1 - 1) * max) by (nonlinear_arith)
            requires
                cube(2 * q2 + 1) <= cube(2 * q1 - 1),
                max > 0,
        ;
    }
}

/// `(2k + 1)^3`, for `k < 2^35`.
fn odd_cube(k: u128) -> (r: u128)
    requires
        k <= 0x8_0000_0000,
    ensures
        r as int == cube(2 * k + 1),
{
    let m = 2 * k + 1;
    assert(m * m <= 0x10_0000_0001 * 0x10_0000_0001) by (nonlinear_arith)
        requires
            m <= 0x10_0000_0001,
    ;
    assert(m * m * m <= 0x10_0000_0001 * 0x10_0000_0001 * 0x10_0000_0001) by (nonlinear_arith)
        requires
            m * m <= 0x10_0000_0001 * 0x10_0000_0001,
            m <= 0x10_0000_0001,
    ;
    m * m * m
}

/// The percentage, in hundredths, of `n` out of `d`.
fn rounded_cbrt(n: u128, d: u128) -> (q: u128)
    requires
        n <= 0x8000_0000_0000_0000,
        d > 0,
    ensures
        is_rounded_cbrt(q as int, n as int, d as int),
        q <= 0x8_0000_0000,
{
    assert(8 * CUBE_SCALE * n <= 8 * CUBE_SCALE * 0x8000_0000_0000_0000) by (nonlinear_arith)
        requires
            n <= 0x8000_0000_0000_0000,
            CUBE_SCALE == 1_000_000_000_000u128,
    ;
    let big = 8 * CUBE_SCALE * n;
    let t = big / d;
    proof {
        lemma_div_is_ordered(big as int, big as int, 1);
        assert(t <= big) by (nonlinear_arith)
            requires
                t == big / d,
                d >= 1,
                big >= 0,
        ;
        assert(cube(0x10_0000_0001) == 324518553672593826231971114647553) by (nonlinear_arith);
        assert(t < cube(0x10_0000_0001));
    }
    let mut lo: u128 = 0;
    let mut hi: u128 = 0x8_0000_0000;
    while lo < hi
        invariant
            lo <= hi <= 0x8_0000_0000,
            lo == 0 || cube(2 * lo - 1) <= t,
            t < cube(2 * hi + 1),
        decreases hi - lo,
    {
        let mid = lo + (hi - lo) / 2;
        if odd_cube(mid) <= t {
            lo = mid + 1;
        } else {
            hi = mid;
        }
    }
    proof {
        lemma_floor_div_bounds(big as int, d as int, cube(2 * lo + 1));
        if lo > 0 {
            lemma_floor_div_bounds(big as int, d as int, cube(2 * lo - 1));
        } else {
            assert(cube(-1) == -1);
        }
    }
    lo
}

/// The percentage of `val` out of `max_val`, in hundredths of a percent:
/// the cube root of `val / max_val`, times 100, rounded to two decimals.
/// An upper bound that is not positive is an error.
pub fn vol_to_pct(val: i64, max_val: i64) -> (r: Result<i64, DomainError>)
    ensures
        max_val <= 0 <==> r == Err::<i64, DomainError>(DomainError::EmptyRange),
        max_val > 0 <==> r is Ok,
        r matches Ok(p) ==> is_pct_of(p as int, val as int, max_val as int),
        r matches Ok(p) ==> -0x8_0000_0000 <= p <= 0x8_0000_0000,
{
    if max_val <= 0 {
        return Err(DomainError::EmptyRange);
    }
    let wide = val as i128;
    let n: u128 = if wide >= 0 {
        wide as u128
    } else {
        (-wide) as u128
    };
    let q = rounded_cbrt(n, max_val as u128);
    if wide >= 0 {
        Ok(q as i64)
    } else {
        Ok(-(q as i64))
    }
}

proof fn lemma_cube_signs(v: int, w: int, a: int, m: int)
    requires
        a == (if v >= 0 { v } else { -v }),
        m == (if w >= 0 { w } else { -w }),
    ensures
        cube(v) * w == (if (v < 0) != (w < 0) { -(a * a * a * m) } else { a * a * a * m }),
{
    if v >= 0 {
        if w >= 0 {
        } else {
            assert(v * v * v * w == -(v * v * v * (-w))) by (nonlinear_arith);
        }
    } else {
        assert(v * v * v == -((-v) * (-v) * (-v))) by (nonlinear_arith);
        if w >= 0 {
            assert(v * v * v * w == -((-v) * (-v) * (-v) * w)) by (nonlinear_arith);
        } else {
            assert(v * v * v * w == (-v) * (-v) * (-v) * (-w)) by (nonlinear_arith);
        }
    }
}

/// A product of at least `2^126` is, after scaling, beyond `i64`.
proof fn lemma_large_scaled(x: int)
    requires
        x >= 0x4000_0000_0000_0000_0000_0000_0000_0000,
    ensures
        x / (CUBE_SCALE as int) > 0x8000_0000_0000_0000,
{
    lemma_div_is_ordered(0x4000_0000_0000_0000_0000_0000_0000_0000, x, CUBE_SCALE as int);
    assert(0x4000_0000_0000_0000_0000_0000_0000_0000int / 1_000_000_000_000int > 0x8000_0000_0000_0000);
}

/// The raw volume for percentage `val`, in hundredths, on a device whose
/// upper bound is `max_val`: `(val / 100)^3 * max_val`, truncated toward
/// zero, and held to the range of `i64`.
pub fn pct_to_vol(val: i64, max_val: i64) -> (r: i64)
    ensures
        r as int == clamp_i64(raw_of_pct(val as int, max_val as int)),
{
    let wv = val as i128;
    let wm = max_val as i128;
    let a: u128 = if wv >= 0 {
        wv as u128
    } else {
        (-wv) as u128
    };
    let m: u128 = if wm >= 0 {
        wm as u128
    } else {
        (-wm) as u128
    };
    let negative = (wv < 0) != (wm < 0);
    let saturated = if negative {
        i64::MIN
    } else {
        i64::MAX
    };
    proof {
        lemma_cube_signs(val as int, max_val as int, a as int, m as int);
    }
    let ghost prod: int = a * a * a * m;
    if a == 0 || m == 0 {
        assert(prod == 0) by (nonlinear_arith)
            requires
                a == 0 || m == 0,
                prod == a * a * a * m,
        ;
        return 0;
    }
    assert(prod > 0) by (nonlinear_arith)
        requires
            a > 0,
            m > 0,
            prod == a * a * a * m,
    ;
    if a > 0x400_0000_0000 {
        assert(prod >= 0x4000_0000_0000_0000_0000_0000_0000_0000) by (nonlinear_arith)
            requires
                a > 0x400_0000_0000,
                m >= 1,
                prod == a * a * a * m,
        ;
        proof {
            lemma_large_scaled(prod);
        }
        return saturated;
    }
    assert(a * a <= 0x400_0000_0000 * 0x400_0000_0000) by (nonlinear_arith)
        requires
            a <= 0x400_0000_0000,
    ;
    assert(a * a * a <= 0x400_0000_0000 * 0x400_0000_0000 * 0x400_0000_0000) by (nonlinear_arith)
        requires
            a <= 0x400_0000_0000,
            a * a <= 0x400_0000_0000 * 0x400_0000_0000,
    ;
    let c = a * a * a;
    if c > u128::MAX / m {
        proof {
            lemma_floor_div_bounds(u128::MAX as int, m as int, c as int);
            lemma_large_scaled(prod);
        }
        return saturated;
    }
    proof {
        lemma_floor_div_bounds(u128::MAX as int, m as int, c as int);
    }
    let q = c * m / CUBE_SCALE;
    if !negative {
        if q > i64::MAX as u128 {
            i64::MAX
        } else {
            q as i64
        }
    } else {
        if q > 0x8000_0000_0000_0000 {
            i64::MIN
        } else {
            (-(q as i128)) as i64
        }
    }
}

/// The raw volume zero is zero percent, and no other percentage.
pub proof fn lemma_pct_of_zero(max: int, p: int)
    requires
        max > 0,
    ensures
        is_pct_of(p, 0, max) <==> p == 0,
{
    assert(cube(2 * 0int - 1) == -1 && cube(2 * 0int + 1) == 1);
    assert(-1 * max <= 0 && 0 < 1 * max);
    assert(is_rounded_cbrt(0, 0, max));
    assert(is_pct_of(0, 0, max));
    if is_pct_of(p, 0, max) {
        lemma_pct_unique(p, 0, 0, max);
    }
}

/// The upper bound of the range is one hundred percent (`10000` hundredths),
/// and no other percentage.
pub proof fn lemma_pct_of_max(max: int, p: int)
    requires
        max > 0,
    ensures
        is_pct_of(p, max, max) <==> p == 10000,
{
    assert(cube(19999) == 7_998_800_059_999);
    assert(cube(20001) == 8_001_200_060_001);
    assert(cube(19999) * max <= 8 * CUBE_SCALE * max) by (nonlinear_arith)
        requires
            cube(19999) == 7_998_800_059_999,
            CUBE_SCALE == 1_000_000_000_000u128,
            max > 0,
    ;
    assert(8 * CUBE_SCALE * max < cube(20001) * max) by (nonlinear_arith)
        requires
            cube(20001) == 8_001_200_060_001,
            CUBE_SCALE == 1_000_000_000_000u128,
            max > 0,
    ;
    assert(is_pct_of(10000, max, max));
    if is_pct_of(p, max, max) {
        lemma_pct_unique(p, 10000, max, max);
    }
}

/// For a raw volume in `[0, max]`, mapping it to its percentage and that
/// back to a raw volume gives the raw volume or one less, where `max` is at
/// most 6666: beyond that, the rounding to two decimals can move the result
/// by more.
pub proof fn lemma_round_trip(raw: int, max: int, p: int)
    requires
        0 < max <= 6666,
        0 <= raw <= max,
        is_pct_of(p, raw, max),
    ensures
        raw - 1 <= clamp_i64(raw_of_pct(p, max)) <= raw,
{
    let q = p;
    let k = 1_000_000_000_000int;
    assert(CUBE_SCALE as int == k);
    assert(q <= 10000) by {
        if q > 10000 {
            lemma_cube_monotone(20001, 2 * q - 1);
            assert(cube(20001) == 8_001_200_060_001);
            assert(cube(2 * q - 1) * max > 8 * k * raw) by (nonlinear_arith)
                requires
                    cube(2 * q - 1) >= 8_001_200_060_001,
                    k == 1_000_000_000_000,
                    0 <= raw <= max,
                    max > 0,
            ;
        }
    }
    let x = q * q * q * max;
    let e = (12 * q * q + 6 * q + 1) * max;
    assert(cube(2 * q + 1) * max == 8 * x + e) by (nonlinear_arith)
        requires
            x == q * q * q * max,
            e == (12 * q * q + 6 * q + 1) * max,
    ;
    assert(cube(2 * q - 1) * max == 8 * x - (12 * q * q - 6 * q + 1) * max) by (nonlinear_arith)
        requires
            x == q * q * q * max,
    ;
    assert(12 * q * q + 6 * q + 1 <= 1_200_060_001) by (nonlinear_arith)
        requires
            0 <= q <= 10000,
    ;
    assert(e <= 7_999_599_966_666) by (nonlinear_arith)
        requires
            e == (12 * q * q + 6 * q + 1) * max,
            12 * q * q + 6 * q + 1 <= 1_200_060_001,
            0 < max <= 6666,
    ;
    assert((12 * q * q - 6 * q + 1) * max <= e) by (nonlinear_arith)
        requires
            e == (12 * q * q + 6 * q + 1) * max,
            q >= 0,
            max > 0,
    ;
    assert(x >= 0) by (nonlinear_arith)
        requires
            x == q * q * q * max,
            q >= 0,
            max > 0,
    ;
    assert(x > k * (raw - 1));
    assert(x < k * (raw + 1));
    lemma_floor_div_bounds(x, k, raw - 1);
    lemma_floor_div_bounds(x, k, raw + 1);
    assert(raw - 1 <= x / k <= raw) by (nonlinear_arith)
        requires
            x < (raw + 1) * k ==> !(raw + 1 <= x / k),
            x > (raw - 1) * k ==> !(x / k < raw - 1),
            x > k * (raw - 1),
            x < k * (raw + 1),
    ;
    assert(cube(q) * max == x);
}

} // verus!
