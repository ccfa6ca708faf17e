//! The values of the numbers, and how far rounding moves them.

use crate::number;
use crate::number::Number;
use crate::number::SIGNIFICAND_MIN;
use vstd::arithmetic::div_mod::*;
use vstd::arithmetic::mul::*;
use vstd::arithmetic::power2::*;
use vstd::prelude::*;

verus! {

/// `2^e`.
pub open spec fn two_to(e: int) -> real {
    if e >= 0 {
        pow2(e as nat) as real
    } else {
        (1 as real) / (pow2((-e) as nat) as real)
    }
}

/// The magnitude of a number.
pub open spec fn magnitude(x: Number) -> real {
    (x.mant as real) * two_to(x.exp)
}

/// The value of a number.
pub open spec fn value(x: Number) -> real {
    if x.neg {
        -magnitude(x)
    } else {
        magnitude(x)
    }
}

pub open spec fn abs(x: real) -> real {
    if x < 0 as real {
        -x
    } else {
        x
    }
}

/// Whether `r` is what one rounding may make of `x`: off by no more than the `2^53`rd
/// part of it.
pub open spec fn is_close(r: real, x: real) -> bool {
    abs(r - x) <= abs(x) * unit_roundoff()
}

/// Whether `r` is off `x` by no more than `k` units of [`unit_roundoff`] of it.
pub open spec fn within(r: real, x: real, k: nat) -> bool {
    abs(r - x) <= abs(x) * (k as real * unit_roundoff())
}

/// `n / d * 2^e`.
pub open spec fn exact(n: nat, d: nat, e: int) -> real {
    (n as real) / (d as real) * two_to(e)
}

/// Whether `r` is `x`, rounded once.
pub open spec fn rounds_to(x: real, r: Number) -> bool {
    exists|neg: bool, n: nat, d: nat, e: int|
        d > 0 && r == #[trigger] number::rounded(neg, n, d, e) && x == if neg {
            -exact(n, d, e)
        } else {
            exact(n, d, e)
        }
}

/// The largest relative error of one rounding: `2^-53`.
pub open spec fn unit_roundoff() -> real {
    (1 as real) / ((2 * SIGNIFICAND_MIN) as real)
}

pub proof fn lemma_two_to_pos(e: int)
    ensures
        two_to(e) > 0 as real,
{
    if e >= 0 {
        lemma_pow2_pos(e as nat);
    } else {
        lemma_pow2_pos((-e) as nat);
        let p = pow2((-e) as nat) as real;
        assert((1 as real) / p > 0 as real) by (nonlinear_arith)
            requires
                p > 0 as real,
        ;
    }
}

pub proof fn lemma_two_to_next(e: int)
    ensures
        two_to(e + 1) == (2 as real) * two_to(e),
{
    lemma2_to64();
    if e >= 0 {
        lemma_pow2_unfold((e + 1) as nat);
    } else {
        lemma_pow2_unfold((-e) as nat);
        lemma_pow2_pos((-e - 1) as nat);
        let p = pow2((-e - 1) as nat) as real;
        let p2 = pow2((-e) as nat) as real;
        assert(p2 == (2 as real) * p);
        if e == -1 {
            assert(p == 1 as real);
            assert((1 as real) / p == 1 as real) by (nonlinear_arith)
                requires
                    p == 1 as real,
            ;
        }
        assert((1 as real) / p == (2 as real) * ((1 as real) / ((2 as real) * p)))
            by (nonlinear_arith)
            requires
                p > 0 as real,
        ;
    }
}

pub proof fn lemma_two_to_adds(a: int, b: int)
    ensures
        two_to(a + b) == two_to(a) * two_to(b),
    decreases if b >= 0 { b } else { -b },
{
    lemma2_to64();
    if b > 0 {
        lemma_two_to_adds(a, b - 1);
        lemma_two_to_next(a + b - 1);
        lemma_two_to_next(b - 1);
        let (x, y) = (two_to(a), two_to(b - 1));
        assert((2 as real) * (x * y) == x * ((2 as real) * y)) by (nonlinear_arith);
    } else if b < 0 {
        lemma_two_to_adds(a, b + 1);
        lemma_two_to_next(a + b);
        lemma_two_to_next(b);
        let (x, y, z) = (two_to(a), two_to(b), two_to(a + b));
        assert(z == x * y) by (nonlinear_arith)
            requires
                (2 as real) * z == x * ((2 as real) * y),
        ;
    } else {
        let x = two_to(a);
        assert(two_to(0) == 1 as real);
        assert(x == x * (1 as real)) by (nonlinear_arith);
    }
}

proof fn lemma_real_product(x: int, y: int)
    ensures
        (x * y) as real == (x as real) * (y as real),
{
    assert((x * y) as real == (x as real) * (y as real)) by (nonlinear_arith);
}

/// How a quotient is rounded: as the quotient `x / y` of 53 integer bits in units of
/// `2^place`.
proof fn lemma_rounded_parts(neg: bool, n: nat, d: nat, e: int) -> (parts: (nat, nat, int))
    requires
        n > 0,
        d > 0,
    ensures
        ({
            let r = number::rounded(neg, n, d, e);
            let (x, y, place) = parts;
            let q = number::nearest_integer(x, y);
            &&& y > 0
            &&& y * SIGNIFICAND_MIN <= x < y * (2 * SIGNIFICAND_MIN)
            &&& exact(n, d, e) == (x as real) / (y as real) * two_to(place)
            &&& SIGNIFICAND_MIN <= q <= 2 * SIGNIFICAND_MIN
            &&& r == number::carried(neg, q, place)
            &&& magnitude(r) == (q as real) * two_to(place)
        }),
{
    let s = number::lemma_scale_exists(n, d);
    number::lemma_rounded_at(neg, n, d, e, s);
    let r = number::rounded(neg, n, d, e);
    let (a, b) = number::lemma_scales(n, d, s);
    let xx = number::scaled_up(n, -s);
    let yy = number::scaled_up(d, s);
    let h = SIGNIFICAND_MIN as int;
    let q = number::nearest_integer(xx, yy);
    lemma_fundamental_div_mod(xx as int, yy as int);
    let (q0, r0) = (xx as int / yy as int, xx as int % yy as int);
    assert(h <= q0 < 2 * h) by (nonlinear_arith)
        requires
            xx == yy * q0 + r0,
            0 <= r0 < yy,
            yy * h <= xx < yy * (2 * h),
    {
        assert(yy * h < yy * (q0 + 1));
        assert(yy * q0 < yy * (2 * h));
    }
    lemma_real_product(n as int, pow2(a) as int);
    lemma_real_product(d as int, pow2(b) as int);
    lemma_pow2_pos(a);
    lemma_pow2_pos(b);
    let (rn, rd, ra, rb) = (n as real, d as real, pow2(a) as real, pow2(b) as real);
    let (rx, ry, rq, rh) = (xx as real, yy as real, q as real, h as real);
    lemma_two_to_adds(e, s);
    lemma_two_to_adds(s, a as int);
    lemma_two_to_pos(e);
    lemma_two_to_pos(s);
    lemma_two_to_next(e + s);
    assert(two_to(a as int) == ra);
    assert(two_to(b as int) == rb);
    assert(s + a == b);
    let (te, ts) = (two_to(e), two_to(s));
    let x = exact(n, d, e);
    let t = te * ts;
    assert(x == rx / ry * t && t > 0 as real) by (nonlinear_arith)
        requires
            x == rn / rd * te,
            rx == rn * ra,
            ry == rd * rb,
            rb == ts * ra,
            t == te * ts,
            rd > 0 as real,
            ra > 0 as real,
            rb > 0 as real,
            ts > 0 as real,
            te > 0 as real,
    {
        assert(rx / ry * (te * ts) == (rn * ra) / (rd * (ts * ra)) * (te * ts));
        assert((rn * ra) / (rd * (ts * ra)) == rn / (rd * ts));
        assert(rn / (rd * ts) * ts == rn / rd);
    }
    assert(magnitude(r) == rq * t) by {
        if q == 2 * h {
            assert(rh * ((2 as real) * t) == ((2 as real) * rh) * t) by (nonlinear_arith);
        }
    }
    (xx, yy, e + s)
}

/// One rounding changes a value by no more than its `2^53`rd part.
pub proof fn lemma_rounding_error(neg: bool, n: nat, d: nat, e: int)
    requires
        n > 0,
        d > 0,
    ensures
        ({
            let r = number::rounded(neg, n, d, e);
            let x = exact(n, d, e);
            &&& x > 0 as real
            &&& r.neg == neg
            &&& SIGNIFICAND_MIN <= r.mant < 2 * SIGNIFICAND_MIN
            &&& x - x * unit_roundoff() <= magnitude(r) <= x + x * unit_roundoff()
        }),
{
    let r = number::rounded(neg, n, d, e);
    let (xx, yy, place) = lemma_rounded_parts(neg, n, d, e);
    let h = SIGNIFICAND_MIN as int;
    let q = number::nearest_integer(xx, yy);
    lemma_fundamental_div_mod(xx as int, yy as int);
    let (q0, r0) = (xx as int / yy as int, xx as int % yy as int);
    // Half a unit off at most.
    assert(-(yy as int) <= 2 * (q * yy - xx) <= yy) by (nonlinear_arith)
        requires
            xx == yy * q0 + r0,
            0 <= r0 < yy,
            (q == q0 && 2 * r0 <= yy) || (q == q0 + 1 && 2 * r0 >= yy),
    ;
    lemma_real_product(q as int, yy as int);
    lemma_real_product(yy as int, h);
    lemma_two_to_pos(place);
    let (rx, ry, rq, rh) = (xx as real, yy as real, q as real, h as real);
    let x = exact(n, d, e);
    let (t, m, u) = (two_to(place), magnitude(r), unit_roundoff());
    let ratio = rx / ry;
    assert(ratio >= rh && rq - ratio <= (1 as real) / (2 as real) && ratio - rq <= (1 as real) / (
    2 as real)) by (nonlinear_arith)
        requires
            ratio == rx / ry,
            ry > 0 as real,
            ry * rh <= rx,
            -ry <= (2 as real) * (rq * ry - rx),
            (2 as real) * (rq * ry - rx) <= ry,
    {
        assert(ratio * ry == rx);
    }
    assert(ratio * u >= (1 as real) / (2 as real)) by (nonlinear_arith)
        requires
            ratio >= rh,
            u == (1 as real) / ((2 as real) * rh),
            rh > 0 as real,
    {
        assert(rh * u == (1 as real) / (2 as real));
        assert(u > 0 as real);
    }
    assert(x - x * u <= m && m <= x + x * u && x > 0 as real) by (nonlinear_arith)
        requires
            x == ratio * t,
            m == rq * t,
            t > 0 as real,
            ratio >= rh,
            rh > 0 as real,
            rq - ratio <= ratio * u,
            ratio - rq <= ratio * u,
    {
        assert((rq - ratio) * t <= (ratio * u) * t);
        assert((ratio - rq) * t <= (ratio * u) * t);
        assert((ratio * u) * t == (ratio * t) * u);
    }
}

/// Of two magnitudes the smaller one is rounded to no greater one.
proof fn lemma_magnitudes_ordered(
    neg: bool,
    n: nat,
    d: nat,
    e: int,
    neg1: bool,
    n1: nat,
    d1: nat,
    e1: int,
)
    requires
        n > 0,
        d > 0,
        n1 > 0,
        d1 > 0,
        exact(n, d, e) <= exact(n1, d1, e1),
    ensures
        magnitude(number::rounded(neg, n, d, e)) <= magnitude(number::rounded(neg1, n1, d1, e1)),
{
    let (x, y, place) = lemma_rounded_parts(neg, n, d, e);
    let (x1, y1, place1) = lemma_rounded_parts(neg1, n1, d1, e1);
    let (q, q1) = (number::nearest_integer(x, y) as real, number::nearest_integer(x1, y1) as real);
    let (t, t1, h) = (two_to(place), two_to(place1), SIGNIFICAND_MIN as real);
    let (rx, ry, rx1, ry1) = (x as real, y as real, x1 as real, y1 as real);
    lemma_real_product(y as int, SIGNIFICAND_MIN as int);
    lemma_real_product(y1 as int, SIGNIFICAND_MIN as int);
    lemma_real_product(y as int, 2 * SIGNIFICAND_MIN);
    lemma_real_product(y1 as int, 2 * SIGNIFICAND_MIN);
    lemma_two_to_pos(place);
    lemma_two_to_pos(place1);
    let (ratio, ratio1) = (rx / ry, rx1 / ry1);
    assert(h <= ratio && ratio < 2 as real * h && h <= ratio1 && ratio1 < 2 as real * h
        && ratio * ry == rx && ratio1 * ry1 == rx1) by (nonlinear_arith)
        requires
            ratio == rx / ry,
            ratio1 == rx1 / ry1,
            ry > 0 as real,
            ry1 > 0 as real,
            ry * h <= rx,
            rx < ry * (2 as real * h),
            ry1 * h <= rx1,
            rx1 < ry1 * (2 as real * h),
    {
        assert(ratio * ry == rx);
        assert(ratio1 * ry1 == rx1);
    }
    if place < place1 {
        lemma_two_to_ordered(place + 1, place1);
        lemma_two_to_next(place);
        assert(q * t <= q1 * t1) by (nonlinear_arith)
            requires
                q <= 2 as real * h,
                h <= q1,
                0 as real <= h,
                0 as real <= q,
                t > 0 as real,
                2 as real * t <= t1,
        {
            assert(q * t <= (2 as real * h) * t);
            assert(h * (2 as real * t) <= h * t1);
            assert(h * t1 <= q1 * t1);
        }
    } else if place > place1 {
        lemma_two_to_ordered(place1 + 1, place);
        lemma_two_to_next(place1);
        assert(ratio * t > ratio1 * t1) by (nonlinear_arith)
            requires
                ratio1 < 2 as real * h,
                h <= ratio,
                h > 0 as real,
                t1 > 0 as real,
                2 as real * t1 <= t,
        {
            assert(ratio1 * t1 < (2 as real * h) * t1);
            assert(h * (2 as real * t1) <= h * t);
            assert(h * t <= ratio * t);
        }
    } else {
        assert(ratio <= ratio1) by (nonlinear_arith)
            requires
                ratio * t <= ratio1 * t,
                t > 0 as real,
        ;
        assert(rx * ry1 <= rx1 * ry) by (nonlinear_arith)
            requires
                ratio <= ratio1,
                ratio * ry == rx,
                ratio1 * ry1 == rx1,
                ry > 0 as real,
                ry1 > 0 as real,
        {
            assert(ratio * (ry * ry1) <= ratio1 * (ry * ry1));
            assert(ratio * (ry * ry1) == rx * ry1);
            assert(ratio1 * (ry * ry1) == rx1 * ry);
        }
        lemma_real_product(x as int, y1 as int);
        lemma_real_product(x1 as int, y as int);
        number::lemma_nearest_integer_ordered(x, y, x1, y1);
        assert(q * t <= q1 * t) by (nonlinear_arith)
            requires
                q <= q1,
                t > 0 as real,
        ;
    }
}

proof fn lemma_two_to_ordered(a: int, b: int)
    requires
        a <= b,
    ensures
        two_to(a) <= two_to(b),
    decreases b - a,
{
    if a < b {
        lemma_two_to_ordered(a, b - 1);
        lemma_two_to_next(b - 1);
        lemma_two_to_pos(b - 1);
    }
}

/// A number is zero exactly where its value is.
pub proof fn lemma_value_sign(x: Number)
    ensures
        magnitude(x) >= 0 as real,
        x.is_zero() <==> magnitude(x) == 0 as real,
{
    lemma_two_to_pos(x.exp);
    let (m, t) = (x.mant as real, two_to(x.exp));
    assert(m * t >= 0 as real && (m == 0 as real <==> m * t == 0 as real)) by (nonlinear_arith)
        requires
            m >= 0 as real,
            t > 0 as real,
    ;
}

proof fn lemma_exact_zero(d: nat, e: int)
    requires
        d > 0,
    ensures
        exact(0, d, e) == 0 as real,
{
    let (r, t) = (d as real, two_to(e));
    assert(0 as real / r * t == 0 as real) by (nonlinear_arith)
        requires
            r > 0 as real,
    ;
}

/// Rounding keeps the order.
pub proof fn lemma_rounding_ordered(x: real, r: Number, x1: real, r1: Number)
    requires
        rounds_to(x, r),
        rounds_to(x1, r1),
        x <= x1,
    ensures
        value(r) <= value(r1),
{
    let (neg, n, d, e) = choose|neg: bool, n: nat, d: nat, e: int|
        d > 0 && r == #[trigger] number::rounded(neg, n, d, e) && x == if neg {
            -exact(n, d, e)
        } else {
            exact(n, d, e)
        };
    let (neg1, n1, d1, e1) = choose|neg: bool, n: nat, d: nat, e: int|
        d > 0 && r1 == #[trigger] number::rounded(neg, n, d, e) && x1 == if neg {
            -exact(n, d, e)
        } else {
            exact(n, d, e)
        };
    lemma_value_sign(r);
    lemma_value_sign(r1);
    lemma_exact_zero(d, e);
    lemma_exact_zero(d1, e1);
    if n > 0 {
        lemma_rounding_error(neg, n, d, e);
    }
    if n1 > 0 {
        lemma_rounding_error(neg1, n1, d1, e1);
    }
    if n > 0 && n1 > 0 {
        if !neg && !neg1 {
            lemma_magnitudes_ordered(neg, n, d, e, neg1, n1, d1, e1);
        } else if neg && neg1 {
            lemma_magnitudes_ordered(neg1, n1, d1, e1, neg, n, d, e);
        }
    }
}

/// The number nearest to an integer.
pub proof fn lemma_integer_value(n: nat)
    ensures
        rounds_to(n as real, Number::integer(n)),
        is_close(value(Number::integer(n)), n as real),
        !Number::integer(n).neg,
{
    if n == 0 {
        lemma_exact_zero(1, 0);
        assert(number::rounded(false, n, 1, 0) == Number::zero());
        lemma_value_sign(Number::zero());
        assert((0 as real) * unit_roundoff() == 0 as real) by (nonlinear_arith);
    } else {
        lemma_rounding_error(false, n, 1, 0);
        lemma2_to64();
        let r = n as real;
        assert(r / (1 as real) * (1 as real) == r) by (nonlinear_arith);
    }
}

/// The number nearest to a ratio.
pub proof fn lemma_ratio_value(n: nat, d: nat)
    requires
        n > 0,
        d > 0,
    ensures
        rounds_to(n as real / d as real, Number::ratio(n, d)),
        is_close(value(Number::ratio(n, d)), n as real / d as real),
        !Number::ratio(n, d).neg,
{
    lemma_rounding_error(false, n, d, 0);
    lemma2_to64();
    let r = n as real / d as real;
    assert(r * (1 as real) == r) by (nonlinear_arith);
}

/// The value of a product.
pub proof fn lemma_times_value(x: Number, y: Number)
    ensures
        rounds_to(value(x) * value(y), x.times(y)),
        is_close(value(x.times(y)), value(x) * value(y)),
{
    lemma_value_sign(x);
    lemma_value_sign(y);
    let (mx, my) = (magnitude(x), magnitude(y));
    if x.is_zero() || y.is_zero() {
        lemma_mul_by_zero_is_zero(x.mant as int);
        lemma_mul_by_zero_is_zero(y.mant as int);
        lemma_exact_zero(1, x.exp + y.exp);
        assert(number::rounded(x.neg != y.neg, 0, 1, x.exp + y.exp) == x.times(y));
        lemma_value_sign(Number::zero());
        assert(value(x) * value(y) == 0 as real) by (nonlinear_arith)
            requires
                value(x) == 0 as real || value(y) == 0 as real,
        ;
        assert((0 as real) * unit_roundoff() == 0 as real) by (nonlinear_arith);
    } else {
        lemma_mul_strictly_positive(x.mant as int, y.mant as int);
        lemma_rounding_error(x.neg != y.neg, x.mant * y.mant, 1, x.exp + y.exp);
        lemma_real_product(x.mant as int, y.mant as int);
        lemma_two_to_adds(x.exp, y.exp);
        let (a, b, t, w) = (x.mant as real, y.mant as real, two_to(x.exp), two_to(y.exp));
        assert((a * b) / (1 as real) * (t * w) == (a * t) * (b * w)) by (nonlinear_arith);
        assert(mx * my > 0 as real) by (nonlinear_arith)
            requires
                mx > 0 as real,
                my > 0 as real,
        ;
        assert(value(x) * value(y) == if x.neg != y.neg {
            -(mx * my)
        } else {
            mx * my
        }) by {
            assert((-mx) * my == -(mx * my)) by (nonlinear_arith);
            assert(mx * (-my) == -(mx * my)) by (nonlinear_arith);
            assert((-mx) * (-my) == mx * my) by (nonlinear_arith);
        }
    }
}

/// The value of a quotient.
pub proof fn lemma_over_value(x: Number, y: Number)
    requires
        !y.is_zero(),
    ensures
        rounds_to(value(x) / value(y), x.over(y)),
        is_close(value(x.over(y)), value(x) / value(y)),
{
    lemma_value_sign(x);
    lemma_value_sign(y);
    let (mx, my) = (magnitude(x), magnitude(y));
    let neg = x.neg != y.neg;
    let q = mx / my;
    assert(value(x) / value(y) == if neg {
        -q
    } else {
        q
    }) by {
        assert((-mx) / my == -(mx / my) && mx / (-my) == -(mx / my) && (-mx) / (-my) == mx / my)
            by (nonlinear_arith)
            requires
                my > 0 as real,
        ;
    }
    if x.is_zero() {
        lemma_exact_zero(y.mant, x.exp - y.exp);
        assert(number::rounded(neg, 0, y.mant, x.exp - y.exp) == x.over(y));
        lemma_value_sign(Number::zero());
        assert(q == 0 as real) by (nonlinear_arith)
            requires
                q == mx / my,
                mx == 0 as real,
                my > 0 as real,
        ;
        assert((0 as real) * unit_roundoff() == 0 as real) by (nonlinear_arith);
    } else {
        lemma_rounding_error(neg, x.mant, y.mant, x.exp - y.exp);
        lemma_two_to_adds(x.exp - y.exp, y.exp);
        lemma_two_to_pos(y.exp);
        lemma_two_to_pos(x.exp - y.exp);
        let (a, b, t, w) = (x.mant as real, y.mant as real, two_to(x.exp - y.exp), two_to(y.exp));
        assert(a / b * t == (a * (t * w)) / (b * w)) by (nonlinear_arith)
            requires
                b > 0 as real,
                w > 0 as real,
        ;
    }
}

/// The value in units of `2^e`.
proof fn lemma_units_value(x: Number, e: int)
    requires
        e <= x.exp,
    ensures
        value(x) == (x.units(e) as real) * two_to(e),
{
    let k = (x.exp - e) as nat;
    lemma_two_to_adds(k as int, e);
    lemma_real_product(x.mant as int, pow2(k) as int);
    let (m, p, t) = (x.mant as real, pow2(k) as real, two_to(e));
    assert(two_to(k as int) == p);
    assert((m * p) * t == m * (p * t)) by (nonlinear_arith);
    assert((-(m * p)) * t == -(m * (p * t))) by (nonlinear_arith);
}

/// The value of a sum.
pub proof fn lemma_plus_value(x: Number, y: Number)
    ensures
        rounds_to(value(x) + value(y), x.plus(y)),
        is_close(value(x.plus(y)), value(x) + value(y)),
        x.plus(y).neg ==> !x.plus(y).is_zero(),
{
    let e = x.common_exponent(y);
    let (a, b) = (x.units(e), y.units(e));
    lemma_units_value(x, e);
    lemma_units_value(y, e);
    lemma_two_to_pos(e);
    let (ra, rb, t) = (a as real, b as real, two_to(e));
    let total = a + b;
    assert((ra + rb) * t == ra * t + rb * t) by (nonlinear_arith);
    if total == 0 {
        lemma_exact_zero(1, e);
        assert(number::rounded(false, 0, 1, e) == x.plus(y));
        lemma_value_sign(Number::zero());
        assert((0 as real) * t == 0 as real) by (nonlinear_arith);
        assert((0 as real) * unit_roundoff() == 0 as real) by (nonlinear_arith);
    } else {
        let n = if total < 0 { (-total) as nat } else { total as nat };
        lemma_rounding_error(total < 0, n, 1, e);
        let rn = n as real;
        assert(rn / (1 as real) * t == rn * t) by (nonlinear_arith);
        assert((-rn) * t == -(rn * t)) by (nonlinear_arith);
        assert(rn * t > 0 as real) by (nonlinear_arith)
            requires
                rn > 0 as real,
                t > 0 as real,
        ;
    }
}

/// The value of a difference.
pub proof fn lemma_minus_value(x: Number, y: Number)
    ensures
        rounds_to(value(x) - value(y), x.minus(y)),
        is_close(value(x.minus(y)), value(x) - value(y)),
        x.minus(y).neg ==> !x.minus(y).is_zero(),
{
    lemma_value_sign(y);
    lemma_plus_value(x, y.negated());
}

/// The integer part of a number that is not negative.
pub proof fn lemma_truncated_value(x: Number)
    requires
        !x.neg,
    ensures
        x.truncated() as real <= value(x) < x.truncated() as real + 1 as real,
{
    if x.exp >= 0 {
        lemma_real_product(x.mant as int, pow2(x.exp as nat) as int);
    } else {
        let k = (-x.exp) as nat;
        let p = pow2(k) as int;
        lemma_pow2_pos(k);
        lemma_fundamental_div_mod(x.mant as int, p);
        let (q, r) = (x.mant as int / p, x.mant as int % p);
        lemma_real_product(p, q);
        let (rm, rp, rq, rr) = (x.mant as real, p as real, q as real, r as real);
        assert(rq <= rm * ((1 as real) / rp) && rm * ((1 as real) / rp) < rq + 1 as real)
            by (nonlinear_arith)
            requires
                rm == rp * rq + rr,
                0 as real <= rr,
                rr < rp,
        {
            let i = (1 as real) / rp;
            assert(i * rp == 1 as real);
            assert(i > 0 as real);
            assert(rm * i == rq * (rp * i) + rr * i);
            assert(rr * i < rp * i);
            assert(rr * i >= 0 as real);
        }
    }
}

/// Comparison is comparison of the values.
pub proof fn law_comparison_is_by_value(x: Number, y: Number)
    ensures
        x.less_than(y) <==> value(x) < value(y),
{
    let e = x.common_exponent(y);
    lemma_units_value(x, e);
    lemma_units_value(y, e);
    lemma_two_to_pos(e);
    let (a, b, t) = (x.units(e) as real, y.units(e) as real, two_to(e));
    assert(a < b <==> a * t < b * t) by (nonlinear_arith)
        requires
            t > 0 as real,
    ;
}

pub open spec fn cubed(x: real) -> real {
    x * x * x
}

proof fn lemma_real_cube(x: int, t: real)
    ensures
        cubed(x as real * t) == (x * x * x) as real * cubed(t),
{
    lemma_real_product(x, x);
    lemma_real_product(x * x, x);
    let r = x as real;
    assert((r * t) * (r * t) * (r * t) == (r * r * r) * (t * t * t)) by (nonlinear_arith);
}

/// The cube root is correctly rounded: it is off by no more than half a unit `2^e` of the
/// last of 53 places, counted from the leading place of the exact root.
pub proof fn law_cube_root_is_nearest(x: Number) -> (e: int)
    requires
        !x.neg,
        SIGNIFICAND_MIN <= x.mant < 2 * SIGNIFICAND_MIN,
    ensures
        ({
            let r = x.cube_root();
            let half = two_to(e - 1);
            &&& !r.neg
            &&& r.exp == e || (r.exp == e + 1 && r.mant == SIGNIFICAND_MIN)
            &&& SIGNIFICAND_MIN <= r.mant < 2 * SIGNIFICAND_MIN
            &&& cubed(two_to(e + 52)) <= value(x) < cubed(two_to(e + 53))
            &&& cubed(value(r) - half) <= value(x) <= cubed(value(r) + half)
        }),
{
    let shift = x.cube_root_shift();
    let n = x.mant * pow2(shift);
    let f = (x.exp - shift) / 3;
    let c = number::lemma_integer_cube_root_exists(n);
    number::lemma_integer_cube_root(n, c);
    lemma_fundamental_div_mod(x.exp - 107, 3);
    assert(x.exp - shift == 3 * f);
    // The root has 54 bits.
    lemma2_to64();
    lemma2_to64_rest();
    let (low, p) = (pow2(159) as int, pow2(107) as int);
    let m = x.mant as int;
    lemma_pow2_adds(52, 107);
    lemma_pow2_adds(107, 1);
    lemma_pow2_adds(107, 2);
    lemma_pow2_adds(53, 53);
    lemma_pow2_adds(106, 53);
    let top = pow2(53) as int;
    assert(top * top * top == low);
    assert(low <= n && n < 8 * low) by (nonlinear_arith)
        requires
            n == m * (pow2(shift) as int),
            p <= pow2(shift) <= 4 * p,
            0x10_0000_0000_0000 <= m < 0x20_0000_0000_0000,
            low == 0x10_0000_0000_0000 * p,
            p > 0,
    {
        assert(0x10_0000_0000_0000 * p <= m * (pow2(shift) as int));
        assert(m * (pow2(shift) as int) < 0x20_0000_0000_0000 * (4 * p));
    }
    let bound = 2 * top;
    assert(bound * bound * bound == 8 * (top * top * top)) by (nonlinear_arith)
        requires
            bound == 2 * top,
    ;
    if c < top {
        number::lemma_cube_ordered(c + 1, top as nat);
    }
    if c >= bound {
        number::lemma_cube_ordered(bound as nat, c);
    }
    // One bit of it is rounded away.
    let rest: nat = if number::cube(c) == n {
        0
    } else {
        1
    };
    let h = 2 * c + rest;
    assert(number::has_53_bits(h, 2, 1));
    number::lemma_rounded_at(false, h, 2, f, 1);
    let q = number::nearest_integer(h, 4);
    assert(2 * q - 1 <= c && c + rest <= 2 * q + 1);
    number::lemma_cube_ordered((2 * q - 1) as nat, c);
    number::lemma_cube_ordered(c + rest, 2 * q + 1);
    // All of it in units of `2^f`.
    let t = two_to(f);
    let r = x.cube_root();
    let e = f + 1;
    lemma_two_to_pos(f);
    lemma_two_to_next(f);
    lemma_two_to_next(f + 1);
    lemma_two_to_adds(f, f);
    lemma_two_to_adds(f + f, f);
    lemma_two_to_adds(3 * f, shift as int);
    lemma_two_to_adds(f, 53);
    lemma_two_to_adds(f, 54);
    lemma_pow2_adds(53, 1);
    lemma_real_product(m, pow2(shift) as int);
    let (rm, rs, rn, cube_t) = (m as real, pow2(shift) as real, n as real, cubed(t));
    assert(two_to(shift as int) == rs && two_to(53) == top as real && two_to(54) == bound as real);
    assert(value(x) == rn * cube_t) by (nonlinear_arith)
        requires
            value(x) == rm * (cube_t * rs),
            rn == rm * rs,
    ;
    let rq = q as real;
    assert(rq * (2 as real * t) == (2 as real * rq) * t && (0x10_0000_0000_0000 as real) * (
    2 as real * (2 as real * t)) == (2 as real * 0x20_0000_0000_0000 as real) * t)
        by (nonlinear_arith);
    assert(value(r) == (2 * q) as real * t);
    let (below, above) = (2 * q - 1, 2 * q + 1);
    assert((2 * q) as real * t - t == below as real * t && (2 * q) as real * t + t == above as real
        * t) by (nonlinear_arith)
        requires
            below as real == (2 * q) as real - 1 as real,
            above as real == (2 * q) as real + 1 as real,
    ;
    lemma_real_cube(below, t);
    lemma_real_cube(above as int, t);
    lemma_real_cube(top, t);
    lemma_real_cube(bound, t);
    let (cb, ca, cl, ch) = (
        (below * below * below) as real,
        (above * above * above) as real,
        (top * top * top) as real,
        (bound * bound * bound) as real,
    );
    assert(cube_t > 0 as real) by (nonlinear_arith)
        requires
            cube_t == t * t * t,
            t > 0 as real,
    {
        assert(t * t > 0 as real);
    }
    assert(cb * cube_t <= rn * cube_t && rn * cube_t <= ca * cube_t && cl * cube_t <= rn * cube_t
        && rn * cube_t < ch * cube_t) by (nonlinear_arith)
        requires
            cb <= rn <= ca,
            cl <= rn < ch,
            cube_t > 0 as real,
    ;
    assert(two_to(e + 52) == top as real * t && two_to(e + 53) == bound as real * t)
        by (nonlinear_arith)
        requires
            two_to(e + 52) == t * top as real,
            two_to(e + 53) == t * bound as real,
    ;
    e
}

/// The bounds on the errors that are added up below.
proof fn lemma_small_error(k: nat, e: real)
    requires
        k <= 1000,
        e == k as real * unit_roundoff(),
    ensures
        0 as real <= e <= 1 as real / 0x10_0000_0000 as real,
        (k + 1) as real * unit_roundoff() == e + unit_roundoff(),
        unit_roundoff() == 1 as real / 0x20_0000_0000_0000 as real,
{
    let (r, u) = (k as real, unit_roundoff());
    assert(0 as real <= r * u <= 1 as real / 0x10_0000_0000 as real) by (nonlinear_arith)
        requires
            0 as real <= r <= 1000 as real,
            u == 1 as real / 0x20_0000_0000_0000 as real,
    ;
    assert((r + 1 as real) * u == r * u + u) by (nonlinear_arith);
}

pub proof fn lemma_within_self(x: real)
    ensures
        within(x, x, 0),
{
    let u = unit_roundoff();
    let a = abs(x);
    assert(a * (0 as real * u) == 0 as real) by (nonlinear_arith);
}

pub proof fn lemma_within_negated(r: real, x: real, k: nat)
    requires
        within(r, x, k),
    ensures
        within(-r, -x, k),
{
}

pub proof fn lemma_within_more(r: real, x: real, j: nat, k: nat)
    requires
        within(r, x, j),
        j <= k,
    ensures
        within(r, x, k),
{
    let (a, b, c, u) = (abs(x), j as real, k as real, unit_roundoff());
    assert(a * (b * u) <= a * (c * u)) by (nonlinear_arith)
        requires
            0 as real <= a,
            b <= c,
            u == 1 as real / 0x20_0000_0000_0000 as real,
    ;
}

pub proof fn lemma_close_within(r: real, x: real)
    requires
        is_close(r, x),
    ensures
        within(r, x, 1),
{
    let u = unit_roundoff();
    assert(1 as real * u == u) by (nonlinear_arith);
}

pub proof fn lemma_abs_product(x: real, y: real)
    ensures
        abs(x * y) == abs(x) * abs(y),
{
    assert((-x) * y == -(x * y) && x * (-y) == -(x * y) && (-x) * (-y) == x * y)
        by (nonlinear_arith);
    assert(abs(x) * abs(y) >= 0 as real) by (nonlinear_arith)
        requires
            abs(x) >= 0 as real,
            abs(y) >= 0 as real,
    ;
}

/// What is near to something near.
pub proof fn lemma_within_through(r: real, y: real, x: real, j: nat, k: nat)
    requires
        within(r, y, j),
        within(y, x, k),
        j <= 400,
        k <= 400,
    ensures
        within(r, x, j + k + 1),
{
    let u = unit_roundoff();
    let (e, f) = (j as real * u, k as real * u);
    lemma_small_error(j, e);
    lemma_small_error(k, f);
    lemma_small_error(j + k, (j + k) as real * u);
    let (a, g) = (abs(x), (j + k + 1) as real * u);
    assert((j as real + k as real) * u == e + f) by (nonlinear_arith)
        requires
            e == j as real * u,
            f == k as real * u,
    ;
    let b = abs(y);
    assert(b * e + a * f <= a * g) by (nonlinear_arith)
        requires
            b <= a + a * f,
            0 as real <= a,
            0 as real <= e <= 1 as real / 0x10_0000_0000 as real,
            0 as real <= f <= 1 as real / 0x10_0000_0000 as real,
            g == e + f + u,
            u == 1 as real / 0x20_0000_0000_0000 as real,
    {
        assert(b * e <= (a + a * f) * e);
        assert(f * e <= f * (1 as real / 0x10_0000_0000 as real));
        assert(f * e <= u);
        assert((a + a * f) * e == a * e + a * (f * e));
        assert(a * (f * e) <= a * u);
        assert(a * g == a * e + a * f + a * u);
    }
}

/// The product of what is near.
pub proof fn lemma_within_product(r: real, x: real, j: nat, s: real, y: real, k: nat)
    requires
        within(r, x, j),
        within(s, y, k),
        j <= 400,
        k <= 400,
    ensures
        within(r * s, x * y, j + k + 1),
{
    let u = unit_roundoff();
    // First one factor moves, then the other.
    lemma_abs_product(r - x, s);
    lemma_abs_product(x, s);
    lemma_abs_product(x, s - y);
    lemma_abs_product(x, y);
    let (a, b, e, f) = (abs(x), abs(s), j as real * u, k as real * u);
    assert(r * s - x * s == (r - x) * s && x * s - x * y == x * (s - y)) by (nonlinear_arith);
    let d = abs(r - x);
    assert(d * b <= (a * b) * e) by (nonlinear_arith)
        requires
            d <= a * e,
            b >= 0 as real,
    ;
    assert(within(r * s, x * s, j));
    let (c, g) = (abs(y), abs(s - y));
    assert(a * g <= (a * c) * f) by (nonlinear_arith)
        requires
            g <= c * f,
            a >= 0 as real,
    ;
    assert(within(x * s, x * y, k));
    lemma_within_through(r * s, x * s, x * y, j, k);
}

/// From either end the error is about the same.
pub proof fn lemma_within_swapped(r: real, x: real, k: nat)
    requires
        within(r, x, k),
        k <= 400,
    ensures
        within(x, r, k + 1),
{
    let u = unit_roundoff();
    let e = k as real * u;
    lemma_small_error(k, e);
    let (a, b) = (abs(x), abs(r));
    assert(a * e <= b * (e + u)) by (nonlinear_arith)
        requires
            a - a * e <= b,
            0 as real <= a,
            0 as real <= e <= 1 as real / 0x10_0000_0000 as real,
            u == 1 as real / 0x20_0000_0000_0000 as real,
    {
        assert(e * (e + u) <= u) by {
            assert(e + u <= 1 as real / 0x8000_0000 as real);
            assert(e * (e + u) <= e * (1 as real / 0x8000_0000 as real));
        }
        assert((a - a * e) * (e + u) <= b * (e + u));
        assert((a - a * e) * (e + u) == a * e + a * (u - e * (e + u)));
        assert(a * (u - e * (e + u)) >= 0 as real);
    }
}

/// The quotient of what is near.
pub proof fn lemma_within_quotient(r: real, x: real, j: nat, s: real, y: real, k: nat)
    requires
        within(r, x, j),
        within(s, y, k),
        y > 0 as real,
        j <= 300,
        k <= 300,
    ensures
        s > 0 as real,
        within(r / s, x / y, j + k + 2),
{
    let u = unit_roundoff();
    lemma_small_error(k, k as real * u);
    lemma_within_swapped(s, y, k);
    let (e, f) = (k as real * u, (k + 1) as real * u);
    assert(s > 0 as real) by (nonlinear_arith)
        requires
            abs(s - y) <= y * e,
            y > 0 as real,
            e <= 1 as real / 0x10_0000_0000 as real,
    ;
    let (is, iy) = (1 as real / s, 1 as real / y);
    assert(is - iy == (y - s) * (is * iy) && s * (is * iy) == iy && is * iy > 0 as real && iy
        > 0 as real && is > 0 as real) by (nonlinear_arith)
        requires
            s > 0 as real,
            y > 0 as real,
            is == 1 as real / s,
            iy == 1 as real / y,
    {
        assert(is * s == 1 as real);
        assert(iy * y == 1 as real);
        assert((y - s) * (is * iy) == is * (iy * y) - iy * (is * s));
        assert(s * (is * iy) == iy * (is * s));
    }
    lemma_abs_product(y - s, is * iy);
    let d = abs(y - s);
    assert(d * (is * iy) <= iy * f) by (nonlinear_arith)
        requires
            d <= s * f,
            s * (is * iy) == iy,
            is * iy > 0 as real,
    {
        assert(d * (is * iy) <= (s * f) * (is * iy));
        assert((s * f) * (is * iy) == f * (s * (is * iy)));
    }
    assert(within(is, iy, k + 1));
    lemma_within_product(r, x, j, is, iy, k + 1);
    assert(r * is == r / s && x * iy == x / y) by (nonlinear_arith)
        requires
            s > 0 as real,
            y > 0 as real,
            is == 1 as real / s,
            iy == 1 as real / y,
    ;
}

/// The cube of a cube root.
pub proof fn lemma_cube_root_value(x: Number)
    requires
        !x.neg,
        x.is_zero() || SIGNIFICAND_MIN <= x.mant < 2 * SIGNIFICAND_MIN,
    ensures
        !x.cube_root().neg,
        within(cubed(value(x.cube_root())), value(x), 5),
{
    let (v, k) = (value(x), value(x.cube_root()));
    lemma_value_sign(x);
    if x.is_zero() {
        assert(cubed(v) == 0 as real) by (nonlinear_arith)
            requires
                v == 0 as real,
                cubed(v) == v * v * v,
        ;
        lemma_within_self(v);
        lemma_within_more(v, v, 0, 5);
    } else {
        let e = law_cube_root_is_nearest(x);
        let r = x.cube_root();
        let (h, u) = (two_to(e - 1), unit_roundoff());
        lemma_two_to_pos(e - 1);
        lemma_two_to_next(e - 1);
        lemma_two_to_next(e);
        let m = r.mant as real;
        // Half a unit of the last place is the `2^53`rd part at most.
        assert(h <= k * u && k > 0 as real) by (nonlinear_arith)
            requires
                k == m * (2 as real * h) || k == m * (2 as real * (2 as real * h)),
                m >= 0x10_0000_0000_0000 as real,
                h > 0 as real,
                u == 1 as real / 0x20_0000_0000_0000 as real,
        {
            assert(m * h >= 0x10_0000_0000_0000 as real * h);
            assert(k >= 0x20_0000_0000_0000 as real * h);
            assert(k * u >= (0x20_0000_0000_0000 as real * h) * u);
        }
        let c = cubed(k);
        let four = 4 as real * u;
        assert(c - c * four <= v && v <= c + c * four && c > 0 as real) by (nonlinear_arith)
            requires
                cubed(k - h) <= v <= cubed(k + h),
                cubed(k - h) == (k - h) * (k - h) * (k - h),
                cubed(k + h) == (k + h) * (k + h) * (k + h),
                c == k * k * k,
                h > 0 as real,
                h <= k * u,
                k > 0 as real,
                four == 4 as real * u,
                u == 1 as real / 0x20_0000_0000_0000 as real,
        {
            let (lo, hi) = (1 as real - u, 1 as real + u);
            assert(k * lo <= k - h && k + h <= k * hi);
            assert((k * lo) * (k * lo) <= (k - h) * (k - h));
            assert((k + h) * (k + h) <= (k * hi) * (k * hi));
            assert((k * lo) * (k * lo) * (k * lo) <= (k - h) * (k - h) * (k - h));
            assert((k + h) * (k + h) * (k + h) <= (k * hi) * (k * hi) * (k * hi));
            assert((k * lo) * (k * lo) * (k * lo) == (k * k * k) * (lo * lo * lo));
            assert((k * hi) * (k * hi) * (k * hi) == (k * k * k) * (hi * hi * hi));
            assert(k * k > 0 as real);
            assert(lo * lo * lo >= 1 as real - four);
            assert(hi * hi * hi <= 1 as real + four);
        }
        assert(within(v, c, 4));
        lemma_within_swapped(v, c, 4);
    }
}

/// An integer is rounded to an integer: to itself, or to a number in units of `2^1` or
/// more.
pub proof fn lemma_integer_rounding(n: nat) -> (i: nat)
    ensures
        value(Number::integer(n)) == i as real,
        i == n || {
            &&& Number::integer(n).exp >= 1
            &&& SIGNIFICAND_MIN <= Number::integer(n).mant < 2 * SIGNIFICAND_MIN
        },
{
    let r = Number::integer(n);
    if n == 0 {
        lemma_value_sign(r);
        0
    } else {
        let s = number::lemma_scale_exists(n, 1);
        number::lemma_rounded_at(false, n, 1, 0, s);
        lemma_rounding_error(false, n, 1, 0);
        if s <= 0 {
            let k = (-s) as nat;
            let x = number::scaled_up(n, -s);
            lemma2_to64();
            lemma_mul_basics(n as int);
            assert(x == n * pow2(k));
            assert(number::nearest_integer(x, 1) == x);
            lemma_two_to_adds(k as int, s);
            lemma_real_product(n as int, pow2(k) as int);
            let (rn, p, t) = (n as real, pow2(k) as real, two_to(s));
            assert(two_to(k as int) == p && p * t == 1 as real);
            assert((rn * p) * t == rn) by (nonlinear_arith)
                requires
                    p * t == 1 as real,
            ;
            n
        } else {
            let k = r.exp as nat;
            lemma_real_product(r.mant as int, pow2(k) as int);
            r.mant * pow2(k)
        }
    }
}

/// A fraction that is less than half a unit of the last place is rounded away.
pub proof fn lemma_fraction_rounded_away(x: Number, f: real, r: Number)
    requires
        !x.neg,
        SIGNIFICAND_MIN <= x.mant < 2 * SIGNIFICAND_MIN,
        x.exp >= 1,
        0 as real <= f,
        f < 1 as real,
        rounds_to(value(x) + f, r),
    ensures
        value(r) == value(x),
{
    let v = value(x) + f;
    let (neg, n, d, e) = choose|neg: bool, n: nat, d: nat, e: int|
        d > 0 && r == #[trigger] number::rounded(neg, n, d, e) && v == if neg {
            -exact(n, d, e)
        } else {
            exact(n, d, e)
        };
    lemma_value_sign(x);
    lemma_exact_zero(d, e);
    assert(n > 0);
    lemma_rounding_error(neg, n, d, e);
    assert(!neg);
    let (xx, yy, place) = lemma_rounded_parts(neg, n, d, e);
    lemma_real_product(yy as int, SIGNIFICAND_MIN as int);
    lemma_real_product(yy as int, 2 * SIGNIFICAND_MIN);
    let (rx, ry, h, m) = (xx as real, yy as real, SIGNIFICAND_MIN as real, x.mant as real);
    let (t, unit) = (two_to(place), two_to(x.exp));
    lemma2_to64();
    lemma_two_to_pos(place);
    lemma_two_to_ordered(1, x.exp);
    let ratio = rx / ry;
    assert(h <= ratio && ratio < 2 as real * h && ratio * ry == rx) by (nonlinear_arith)
        requires
            ratio == rx / ry,
            ry > 0 as real,
            ry * h <= rx,
            rx < ry * (2 as real * h),
    {
        assert(ratio * ry == rx);
    }
    assert(h * unit <= v && v < (2 as real * h) * unit) by (nonlinear_arith)
        requires
            v == m * unit + f,
            h <= m <= 2 as real * h - 1 as real,
            unit >= 2 as real,
            0 as real <= f,
            f < 1 as real,
    ;
    if place < x.exp {
        lemma_two_to_ordered(place + 1, x.exp);
        lemma_two_to_next(place);
        assert(ratio * t < h * unit) by (nonlinear_arith)
            requires
                ratio < 2 as real * h,
                t > 0 as real,
                2 as real * t <= unit,
                h > 0 as real,
        {
            assert(ratio * t < (2 as real * h) * t);
            assert(h * (2 as real * t) <= h * unit);
        }
    } else if place > x.exp {
        lemma_two_to_ordered(x.exp + 1, place);
        lemma_two_to_next(x.exp);
        assert(ratio * t >= (2 as real * h) * unit) by (nonlinear_arith)
            requires
                ratio >= h,
                t > 0 as real,
                2 as real * unit <= t,
                h > 0 as real,
        {
            assert(ratio * t >= h * t);
            assert(h * t >= h * (2 as real * unit));
        }
    }
    assert(place == x.exp);
    // What is left over the significand is less than half of the divisor.
    lemma_real_product(x.mant as int, yy as int);
    let over = xx - x.mant * yy;
    assert(0 as real <= rx - m * ry && 2 as real * (rx - m * ry) < ry) by (nonlinear_arith)
        requires
            ratio * t == m * t + f,
            ratio * ry == rx,
            ry > 0 as real,
            t >= 2 as real,
            0 as real <= f,
            f < 1 as real,
    {
        let gap = ratio - m;
        assert(gap * t == f);
        assert(gap >= 0 as real);
        assert(2 as real * gap < 1 as real) by {
            if 2 as real * gap >= 1 as real {
                assert(gap * t >= gap * 2 as real);
            }
        }
        assert(gap * ry == rx - m * ry);
        assert(gap * ry >= 0 as real);
        assert((2 as real * gap) * ry < ry);
    }
    assert(over as real == rx - m * ry);
    assert(0 <= over && 2 * over < yy);
    lemma_fundamental_div_mod_converse(xx as int, yy as int, x.mant as int, over);
}

/// Rounding is to the nearest number of 53 places, counted from the leading place of the
/// exact value: the result is off by no more than half a unit `2^place` of the last one.
/// Of two numbers that are equally near, the one with the even significand is taken.
pub proof fn law_rounding_is_nearest(x: real, r: Number) -> (place: int)
    requires
        rounds_to(x, r),
    ensures
        x == 0 as real ==> r == Number::zero(),
        x != 0 as real ==> {
            &&& r.neg == (x < 0 as real)
            &&& SIGNIFICAND_MIN <= r.mant < 2 * SIGNIFICAND_MIN
            &&& r.exp == place || (r.exp == place + 1 && r.mant == SIGNIFICAND_MIN)
            &&& two_to(place + 52) <= abs(x) < two_to(place + 53)
            &&& abs(value(r) - x) <= two_to(place - 1)
            &&& abs(value(r) - x) == two_to(place - 1) ==> r.mant % 2 == 0
        },
{
    let (neg, n, d, e) = choose|neg: bool, n: nat, d: nat, e: int|
        d > 0 && r == #[trigger] number::rounded(neg, n, d, e) && x == if neg {
            -exact(n, d, e)
        } else {
            exact(n, d, e)
        };
    lemma_exact_zero(d, e);
    if n == 0 {
        0
    } else {
        lemma_rounding_error(neg, n, d, e);
        let (xx, yy, place) = lemma_rounded_parts(neg, n, d, e);
        let q = number::nearest_integer(xx, yy);
        let h = SIGNIFICAND_MIN as int;
        lemma_fundamental_div_mod(xx as int, yy as int);
        let (q0, r0) = (xx as int / yy as int, xx as int % yy as int);
        let off = 2 * (q * yy - xx);
        assert(-(yy as int) <= off <= yy && ((off == yy || off == -(yy as int)) ==> 2 * r0 == yy))
            by (nonlinear_arith)
            requires
                off == 2 * (q * yy - xx),
                xx == yy * q0 + r0,
                0 <= r0 < yy,
                (q == q0 && 2 * r0 <= yy) || (q == q0 + 1 && 2 * r0 >= yy),
        ;
        lemma_real_product(q as int, yy as int);
        lemma_real_product(yy as int, h);
        lemma_real_product(yy as int, 2 * h);
        lemma_two_to_pos(place);
        lemma_two_to_next(place - 1);
        lemma_two_to_adds(52, place);
        lemma_two_to_adds(53, place);
        lemma2_to64();
        lemma2_to64_rest();
        let (rx, ry, rq, rh, t) = (xx as real, yy as real, q as real, h as real, two_to(place));
        let ratio = rx / ry;
        let (m, v) = (magnitude(r), exact(n, d, e));
        let (half, ro) = (two_to(place - 1), off as real);
        assert(ratio * ry == rx) by (nonlinear_arith)
            requires
                ratio == rx / ry,
                ry > 0 as real,
        ;
        let gap = rq - ratio;
        assert(2 as real * (gap * ry) == ro) by (nonlinear_arith)
            requires
                gap == rq - ratio,
                ratio * ry == rx,
                ro == 2 as real * (rq * ry - rx),
        ;
        assert(-1 as real <= 2 as real * gap && 2 as real * gap <= 1 as real && (2 as real * gap
            == 1 as real ==> ro == ry) && (2 as real * gap == -1 as real ==> ro == -ry))
            by (nonlinear_arith)
            requires
                2 as real * (gap * ry) == ro,
                ry > 0 as real,
                -ry <= ro <= ry,
        ;
        assert(m - v == gap * t) by (nonlinear_arith)
            requires
                m == rq * t,
                v == ratio * t,
                gap == rq - ratio,
        ;
        assert(-half <= gap * t && gap * t <= half && (gap * t == half ==> 2 as real * gap
            == 1 as real) && (gap * t == -half ==> 2 as real * gap == -1 as real))
            by (nonlinear_arith)
            requires
                -1 as real <= 2 as real * gap,
                2 as real * gap <= 1 as real,
                t == 2 as real * half,
                t > 0 as real,
        ;
        assert(rh * t <= v && v < (2 as real * rh) * t) by (nonlinear_arith)
            requires
                v == ratio * t,
                ratio * ry == rx,
                ry > 0 as real,
                ry * rh <= rx,
                rx < ry * (2 as real * rh),
                t > 0 as real,
        {
            assert(rh <= ratio);
            assert(ratio < 2 as real * rh);
        }
        place
    }
}

/// The integer part of a number, and 0 of a negative one, limited to the largest `usize`.
pub proof fn law_clamping_truncates(x: Number)
    ensures
        x.clamped() <= usize::MAX,
        value(x) < 1 as real ==> x.clamped() == 0,
        value(x) >= 1 as real ==> x.clamped() as real <= value(x),
        x.clamped() == usize::MAX || value(x) < x.clamped() as real + 1 as real,
{
    lemma_value_sign(x);
    if !x.neg {
        lemma_truncated_value(x);
        let t = x.truncated();
        assert(t > 0 ==> t as real >= 1 as real);
    }
}

} // verus!
