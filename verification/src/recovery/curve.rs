//! The shape of the curve W_cubic(t).

use crate::number::Number;
use crate::number::SIGNIFICAND_MIN;
use crate::recovery::cubic;
use crate::recovery::cubic::Extended;
use crate::recovery::cubic::StateModel;
use crate::recovery::MAX_DATAGRAM_SIZE;
use crate::time;
use crate::value;
use vstd::arithmetic::div_mod::*;
use vstd::arithmetic::mul::*;
use vstd::prelude::*;

verus! {

/// The values of the constants, and of w_max in packets.
proof fn lemma_packets_value(s: StateModel)
    requires
        !s.w_max.neg,
    ensures
        value::within(value::value(cubic::datagram()), 1452 as real, 1),
        !s.packets().neg,
        value::within(value::value(s.packets()), value::value(s.w_max) / 1452 as real, 5),
{
    let (v, g, p) = (
        value::value(s.w_max),
        value::value(cubic::datagram()),
        value::value(s.packets()),
    );
    value::lemma_integer_value(MAX_DATAGRAM_SIZE as nat);
    value::lemma_close_within(g, 1452 as real);
    value::lemma_value_sign(s.w_max);
    value::lemma_value_sign(cubic::datagram());
    value::lemma_rounding_error(false, MAX_DATAGRAM_SIZE as nat, 1, 0);
    value::lemma_over_value(s.w_max, cubic::datagram());
    if !s.w_max.is_zero() {
        value::lemma_rounding_error(
            false,
            s.w_max.mant,
            cubic::datagram().mant,
            s.w_max.exp - cubic::datagram().exp,
        );
    }
    value::lemma_within_self(v);
    value::lemma_within_quotient(v, v, 0, g, 1452 as real, 1);
    value::lemma_close_within(p, v / g);
    value::lemma_within_through(p, v / g, v / 1452 as real, 1, 3);
}

/// The value of one rounded product.
proof fn lemma_times_within(a: Number, x: real, j: nat, b: Number, y: real, k: nat)
    requires
        value::within(value::value(a), x, j),
        value::within(value::value(b), y, k),
        j <= 100,
        k <= 100,
    ensures
        value::within(value::value(a.times(b)), x * y, j + k + 3),
{
    let (r, s, p) = (value::value(a), value::value(b), value::value(a.times(b)));
    value::lemma_within_product(r, x, j, s, y, k);
    value::lemma_times_value(a, b);
    value::lemma_close_within(p, r * s);
    value::lemma_within_through(p, r * s, x * y, 1, j + k + 1);
}

/// The value of one rounded quotient of numbers that are not negative.
proof fn lemma_over_within(a: Number, x: real, j: nat, b: Number, y: real, k: nat)
    requires
        !a.neg,
        !b.neg,
        y > 0 as real,
        value::within(value::value(a), x, j),
        value::within(value::value(b), y, k),
        j <= 100,
        k <= 100,
    ensures
        value::within(value::value(a.over(b)), x / y, j + k + 4),
        !a.over(b).neg,
        a.over(b).is_zero() || SIGNIFICAND_MIN <= a.over(b).mant < 2 * SIGNIFICAND_MIN,
{
    let (r, s, q) = (value::value(a), value::value(b), value::value(a.over(b)));
    value::lemma_within_quotient(r, x, j, s, y, k);
    value::lemma_value_sign(b);
    value::lemma_over_value(a, b);
    value::lemma_close_within(q, r / s);
    value::lemma_within_through(q, r / s, x / y, 1, j + k + 2);
    if !a.is_zero() {
        value::lemma_rounding_error(false, a.mant, b.mant, a.exp - b.exp);
    }
}

/// The value of 1 - beta_cubic.
proof fn lemma_rest_value()
    ensures
        !cubic::one().minus(cubic::beta()).neg,
        value::within(
            value::value(cubic::one().minus(cubic::beta())),
            3 as real / 10 as real,
            8,
        ),
{
    let rest = cubic::one().minus(cubic::beta());
    let (o, b, r, u) = (
        value::value(cubic::one()),
        value::value(cubic::beta()),
        value::value(rest),
        value::unit_roundoff(),
    );
    value::lemma_integer_value(1);
    value::lemma_ratio_value(7, 10);
    value::lemma_minus_value(cubic::one(), cubic::beta());
    assert(u == 1 as real / 0x20_0000_0000_0000 as real);
    let (three, seven) = (3 as real / 10 as real, 7 as real / 10 as real);
    assert(value::abs(o - b - three) <= value::abs(three) * (6 as real * u)) by (nonlinear_arith)
        requires
            value::abs(o - 1 as real) <= value::abs(1 as real) * u,
            value::abs(b - seven) <= value::abs(seven) * u,
            three == 3 as real / 10 as real,
            seven == 7 as real / 10 as real,
            u == 1 as real / 0x20_0000_0000_0000 as real,
    ;
    value::lemma_close_within(r, o - b);
    value::lemma_within_through(r, o - b, 3 as real / 10 as real, 1, 6);
    value::lemma_value_sign(rest);
}

/// The cube of K: what the curve has to climb, divided by C.
proof fn lemma_k_value(s: StateModel)
    requires
        !s.w_max.neg,
    ensures
        !s.cubic_k().neg,
        value::within(
            value::cubed(value::value(s.cubic_k())),
            value::value(s.w_max) / 1452 as real * (3 as real / 4 as real),
            27,
        ),
{
    let p = value::value(s.w_max) / 1452 as real;
    let rest = cubic::one().minus(cubic::beta());
    let climb = s.packets().times(rest);
    let radicand = climb.over(cubic::scale());
    lemma_packets_value(s);
    lemma_rest_value();
    value::lemma_ratio_value(4, 10);
    value::lemma_close_within(value::value(cubic::scale()), 4 as real / 10 as real);
    lemma_times_within(s.packets(), p, 5, rest, 3 as real / 10 as real, 8);
    assert(!climb.neg);
    let x = p * (3 as real / 10 as real);
    lemma_over_within(climb, x, 16, cubic::scale(), 4 as real / 10 as real, 1);
    let y = p * (3 as real / 4 as real);
    assert(x / (4 as real / 10 as real) == y) by (nonlinear_arith)
        requires
            x == p * (3 as real / 10 as real),
            y == p * (3 as real / 4 as real),
    ;
    value::lemma_cube_root_value(radicand);
    let cube = value::cubed(value::value(radicand.cube_root()));
    value::lemma_within_through(cube, value::value(radicand), y, 5, 21);
}

/// The value of the curve where the distance in time from its plateau is `-d`.
proof fn lemma_curve_value(s: StateModel, t: nat, d: real)
    requires
        !s.w_max.neg,
        value::within(value::value(time::seconds(t).minus(s.k)), -d, 1),
    ensures
        ({
            let x = time::seconds(t).minus(s.k);
            let term = cubic::scale().times(x.times(x).times(x));
            value::within(
                value::value(term),
                4 as real / 10 as real * -value::cubed(d),
                13,
            )
        }),
{
    let x = time::seconds(t).minus(s.k);
    lemma_times_within(x, -d, 1, x, -d, 1);
    lemma_times_within(x.times(x), (-d) * (-d), 5, x, -d, 1);
    assert((-d) * (-d) * (-d) == -value::cubed(d)) by (nonlinear_arith)
        requires
            value::cubed(d) == d * d * d,
    ;
    value::lemma_ratio_value(4, 10);
    value::lemma_close_within(value::value(cubic::scale()), 4 as real / 10 as real);
    lemma_times_within(
        cubic::scale(),
        4 as real / 10 as real,
        1,
        x.times(x).times(x),
        -value::cubed(d),
        9,
    );
}

/// No time is no seconds.
proof fn lemma_no_seconds()
    ensures
        value::value(time::seconds(0)) == 0 as real,
{
    let zero = Number::integer(0);
    let unit = Number::integer(time::NANOS_PER_SEC as nat);
    value::lemma_value_sign(zero);
    value::lemma_plus_value(zero, zero.over(unit));
    let u = value::unit_roundoff();
    assert(0 as real * u == 0 as real) by (nonlinear_arith);
}

/// The curve starts out at the window that a congestion event leaves, seven tenths of
/// the window before, but for an error of a `2^48`th part.
pub proof fn law_curve_starts_at_reduced_window(s: StateModel)
    requires
        !s.w_max.neg,
        s.k == s.cubic_k(),
    ensures
        ({
            let w = value::value(s.w_max);
            value::abs(value::value(s.w_cubic(0)) - w * (7 as real / 10 as real)) <= w
                / 0x1_0000_0000_0000 as real
        }),
{
    let w = value::value(s.w_max);
    let p = w / 1452 as real;
    let k = value::value(s.k);
    let x = time::seconds(0).minus(s.k);
    let term = cubic::scale().times(x.times(x).times(x));
    value::lemma_value_sign(s.w_max);
    lemma_packets_value(s);
    lemma_k_value(s);
    lemma_no_seconds();
    value::lemma_minus_value(time::seconds(0), s.k);
    value::lemma_close_within(value::value(x), -k);
    lemma_curve_value(s, 0, k);
    // C * K^3 is three tenths of w_max.
    let (c, q) = (value::cubed(k), p * (3 as real / 4 as real));
    let four = 4 as real / 10 as real;
    value::lemma_within_negated(c, q, 27);
    value::lemma_within_self(four);
    value::lemma_within_product(four, four, 0, -c, -q, 27);
    value::lemma_within_through(value::value(term), four * -c, four * -q, 13, 28);
    let (tv, pv, u) = (value::value(term), value::value(s.packets()), value::unit_roundoff());
    assert(u == 1 as real / 0x20_0000_0000_0000 as real);
    let left = p * (7 as real / 10 as real);
    assert(p >= 0 as real) by (nonlinear_arith)
        requires
            p == w / 1452 as real,
            w >= 0 as real,
    ;
    assert(value::abs(four * -q) == p * (3 as real / 10 as real) && four * -q == -(p * (3 as real
        / 10 as real))) by (nonlinear_arith)
        requires
            p >= 0 as real,
            four == 4 as real / 10 as real,
            q == p * (3 as real / 4 as real),
    ;
    assert(value::abs(tv + pv - left) <= value::abs(left) * (26 as real * u)) by (nonlinear_arith)
        requires
            p >= 0 as real,
            left == p * (7 as real / 10 as real),
            value::abs(tv + p * (3 as real / 10 as real)) <= p * (3 as real / 10 as real) * (42
                as real * u),
            value::abs(pv - p) <= p * (5 as real * u),
            u == 1 as real / 0x20_0000_0000_0000 as real,
    ;
    let sum = term.plus(s.packets());
    value::lemma_plus_value(term, s.packets());
    value::lemma_close_within(value::value(sum), tv + pv);
    value::lemma_within_through(value::value(sum), tv + pv, left, 1, 26);
    lemma_times_within(sum, left, 28, cubic::datagram(), 1452 as real, 1);
    assert(left * 1452 as real == w * (7 as real / 10 as real)) by (nonlinear_arith)
        requires
            left == p * (7 as real / 10 as real),
            p == w / 1452 as real,
    ;
    let (start, seven) = (value::value(s.w_cubic(0)), w * (7 as real / 10 as real));
    assert(value::abs(start - seven) <= w / 0x1_0000_0000_0000 as real) by (nonlinear_arith)
        requires
            w >= 0 as real,
            seven == w * (7 as real / 10 as real),
            value::abs(start - seven) <= value::abs(seven) * (32 as real * u),
            u == 1 as real / 0x20_0000_0000_0000 as real,
    ;
}

/// The fraction of a second in `nanos` nanoseconds.
spec fn fraction(nanos: nat) -> Number {
    Number::integer(nanos).over(Number::integer(time::NANOS_PER_SEC as nat))
}

/// A later fraction of a second is no less, and each is less than a second.
proof fn lemma_fractions_ordered(a: nat, b: nat)
    requires
        a <= b < time::NANOS_PER_SEC,
    ensures
        0 as real <= value::value(fraction(a)),
        value::value(fraction(a)) <= value::value(fraction(b)),
        value::value(fraction(b)) < 1 as real,
        !fraction(b).neg,
{
    let unit = Number::integer(time::NANOS_PER_SEC as nat);
    let (na, nb) = (Number::integer(a), Number::integer(b));
    value::lemma_integer_value(a);
    value::lemma_integer_value(b);
    value::lemma_integer_value(time::NANOS_PER_SEC as nat);
    value::lemma_rounding_ordered(a as real, na, b as real, nb);
    value::lemma_value_sign(na);
    value::lemma_value_sign(nb);
    value::lemma_value_sign(unit);
    value::lemma_rounding_error(false, time::NANOS_PER_SEC as nat, 1, 0);
    value::lemma_over_value(na, unit);
    value::lemma_over_value(nb, unit);
    if b > 0 {
        value::lemma_rounding_error(false, nb.mant, unit.mant, nb.exp - unit.exp);
    }
    if a > 0 {
        value::lemma_rounding_error(false, na.mant, unit.mant, na.exp - unit.exp);
    }
    value::lemma_value_sign(fraction(a));
    let (va, vb, vu, f, u) = (
        value::value(na),
        value::value(nb),
        value::value(unit),
        value::value(fraction(b)),
        value::unit_roundoff(),
    );
    assert(u == 1 as real / 0x20_0000_0000_0000 as real);
    assert(va / vu <= vb / vu) by (nonlinear_arith)
        requires
            va <= vb,
            vu > 0 as real,
    ;
    value::lemma_rounding_ordered(va / vu, fraction(a), vb / vu, fraction(b));
    let (rb, billion, q) = (b as real, 1_000_000_000 as real, vb / vu);
    assert(f < 1 as real) by (nonlinear_arith)
        requires
            0 as real <= rb <= billion - 1 as real,
            billion == 1_000_000_000 as real,
            value::abs(vb - rb) <= value::abs(rb) * u,
            value::abs(vu - billion) <= value::abs(billion) * u,
            value::abs(f - q) <= value::abs(q) * u,
            q == vb / vu,
            vu > 0 as real,
            vb >= 0 as real,
            u == 1 as real / 0x20_0000_0000_0000 as real,
    {
        assert(vb <= billion - 1 as real + billion * u);
        assert(vu >= billion - billion * u);
        assert(q * vu == vb);
        assert(q <= 1 as real - 1 as real / (2 as real * billion)) by {
            if q > 1 as real - 1 as real / (2 as real * billion) {
                assert(q * vu > (1 as real - 1 as real / (2 as real * billion)) * vu);
                assert((1 as real - 1 as real / (2 as real * billion)) * vu >= (1 as real
                    - 1 as real / (2 as real * billion)) * (billion - billion * u));
            }
        }
        assert(q >= 0 as real);
        assert(q * u <= u);
    }
}

/// A longer span is no fewer seconds.
proof fn lemma_seconds_ordered(a: nat, b: nat)
    requires
        a <= b,
    ensures
        value::value(time::seconds(a)) <= value::value(time::seconds(b)),
{
    let per = time::NANOS_PER_SEC as nat;
    let (sa, sb, fa, fb) = (a / per, b / per, a % per, b % per);
    lemma_fundamental_div_mod(a as int, per as int);
    lemma_fundamental_div_mod(b as int, per as int);
    let (wa, wb) = (Number::integer(sa), Number::integer(sb));
    value::lemma_plus_value(wa, fraction(fa));
    value::lemma_plus_value(wb, fraction(fb));
    let (va, vb, ra, rb) = (
        value::value(wa),
        value::value(wb),
        value::value(fraction(fa)),
        value::value(fraction(fb)),
    );
    lemma_fractions_ordered(fa, fa);
    lemma_fractions_ordered(fb, fb);
    if sa == sb {
        lemma_fractions_ordered(fa, fb);
        value::lemma_rounding_ordered(va + ra, time::seconds(a), vb + rb, time::seconds(b));
    } else {
        assert(sa < sb);
        let ia = value::lemma_integer_rounding(sa);
        let ib = value::lemma_integer_rounding(sb);
        value::lemma_integer_value(sa);
        value::lemma_integer_value(sb);
        value::lemma_rounding_ordered(sa as real, wa, sb as real, wb);
        if ia < ib {
            value::lemma_rounding_ordered(va + ra, time::seconds(a), vb + rb, time::seconds(b));
        } else {
            // Both counts of seconds are rounded to one number, on a grid that is too
            // coarse for a fraction.
            let w = if ia != sa { wa } else { wb };
            value::lemma_fraction_rounded_away(w, ra, time::seconds(a));
            value::lemma_fraction_rounded_away(w, rb, time::seconds(b));
        }
    }
}

/// A rounded product with a factor that is not negative keeps the order.
proof fn lemma_products_ordered(x: Number, y: Number, f: Number)
    requires
        value::value(x) <= value::value(y),
        0 as real <= value::value(f),
    ensures
        value::value(x.times(f)) <= value::value(y.times(f)),
        value::value(f.times(x)) <= value::value(f.times(y)),
{
    let (a, b, c) = (value::value(x), value::value(y), value::value(f));
    assert(a * c <= b * c && c * a <= c * b) by (nonlinear_arith)
        requires
            a <= b,
            0 as real <= c,
    ;
    value::lemma_times_value(x, f);
    value::lemma_times_value(y, f);
    value::lemma_times_value(f, x);
    value::lemma_times_value(f, y);
    value::lemma_rounding_ordered(a * c, x.times(f), b * c, y.times(f));
    value::lemma_rounding_ordered(c * a, f.times(x), c * b, f.times(y));
}

/// The cube, rounded after each product, keeps the order.
proof fn lemma_cubes_ordered(x: Number, y: Number)
    requires
        value::value(x) <= value::value(y),
    ensures
        value::value(x.times(x).times(x)) <= value::value(y.times(y).times(y)),
{
    let (a, b) = (value::value(x), value::value(y));
    let (x2, y2) = (x.times(x), y.times(y));
    let zero = Number::integer(0);
    value::lemma_integer_value(0);
    value::lemma_value_sign(zero);
    value::lemma_times_value(x, x);
    value::lemma_times_value(y, y);
    value::lemma_times_value(x2, x);
    value::lemma_times_value(y2, y);
    assert(a * a >= 0 as real && b * b >= 0 as real) by (nonlinear_arith);
    value::lemma_rounding_ordered(0 as real, zero, a * a, x2);
    value::lemma_rounding_ordered(0 as real, zero, b * b, y2);
    let (p, q) = (value::value(x2), value::value(y2));
    if 0 as real <= a {
        assert(a * a <= b * b) by (nonlinear_arith)
            requires
                0 as real <= a,
                a <= b,
        ;
        value::lemma_rounding_ordered(a * a, x2, b * b, y2);
    } else if b <= 0 as real {
        assert(b * b <= a * a) by (nonlinear_arith)
            requires
                b <= 0 as real,
                a <= b,
        ;
        value::lemma_rounding_ordered(b * b, y2, a * a, x2);
    }
    assert(p * a <= q * b) by (nonlinear_arith)
        requires
            0 as real <= p,
            0 as real <= q,
            a <= b,
            (0 as real <= a && p <= q) || (b <= 0 as real && q <= p) || (a <= 0 as real && 0 as real
                <= b),
    ;
    value::lemma_rounding_ordered(p * a, x2.times(x), q * b, y2.times(y));
}

/// The curve never falls as time goes by.
pub proof fn law_curve_rises(s: StateModel, t: nat, t1: nat)
    requires
        t <= t1,
    ensures
        value::value(s.w_cubic(t)) <= value::value(s.w_cubic(t1)),
{
    let (x, x1) = (time::seconds(t).minus(s.k), time::seconds(t1).minus(s.k));
    let (y, y1) = (x.times(x).times(x), x1.times(x1).times(x1));
    let (z, z1) = (cubic::scale().times(y), cubic::scale().times(y1));
    let k = value::value(s.k);
    lemma_seconds_ordered(t, t1);
    value::lemma_minus_value(time::seconds(t), s.k);
    value::lemma_minus_value(time::seconds(t1), s.k);
    value::lemma_rounding_ordered(
        value::value(time::seconds(t)) - k,
        x,
        value::value(time::seconds(t1)) - k,
        x1,
    );
    lemma_cubes_ordered(x, x1);
    value::lemma_ratio_value(4, 10);
    value::lemma_value_sign(cubic::scale());
    lemma_products_ordered(y, y1, cubic::scale());
    value::lemma_plus_value(z, s.packets());
    value::lemma_plus_value(z1, s.packets());
    let p = value::value(s.packets());
    value::lemma_rounding_ordered(
        value::value(z) + p,
        z.plus(s.packets()),
        value::value(z1) + p,
        z1.plus(s.packets()),
    );
    value::lemma_integer_value(MAX_DATAGRAM_SIZE as nat);
    value::lemma_value_sign(cubic::datagram());
    lemma_products_ordered(z.plus(s.packets()), z1.plus(s.packets()), cubic::datagram());
}

/// Up to the time K the curve is not above w_max, the window before the congestion
/// event, and from then on it is not below it; both but for an error of a `2^48`th part.
pub proof fn law_curve_reaches_w_max_at_k(s: StateModel, t: nat)
    requires
        !s.w_max.neg,
    ensures
        ({
            let w = value::value(s.w_max);
            let slack = w / 0x1_0000_0000_0000 as real;
            let (x, k) = (value::value(time::seconds(t)), value::value(s.k));
            &&& x <= k ==> value::value(s.w_cubic(t)) <= w + slack
            &&& x >= k ==> value::value(s.w_cubic(t)) >= w - slack
        }),
{
    let zero = Number::integer(0);
    let (w, u) = (value::value(s.w_max), value::unit_roundoff());
    let p = w / 1452 as real;
    let x = time::seconds(t).minus(s.k);
    let y = x.times(x).times(x);
    let z = cubic::scale().times(y);
    value::lemma_integer_value(0);
    value::lemma_value_sign(zero);
    value::lemma_value_sign(s.w_max);
    lemma_packets_value(s);
    // The curve on its plateau.
    let pv = value::value(s.packets());
    let sum = zero.plus(s.packets());
    let top = sum.times(cubic::datagram());
    value::lemma_plus_value(zero, s.packets());
    value::lemma_close_within(value::value(sum), pv);
    value::lemma_within_through(value::value(sum), pv, p, 1, 5);
    lemma_times_within(sum, p, 7, cubic::datagram(), 1452 as real, 1);
    let r = value::value(top);
    assert(value::abs(r - w) <= w / 0x1_0000_0000_0000 as real) by (nonlinear_arith)
        requires
            w >= 0 as real,
            p == w / 1452 as real,
            value::abs(r - p * 1452 as real) <= value::abs(p * 1452 as real) * (11 as real * u),
            u == 1 as real / 0x20_0000_0000_0000 as real,
    {
        assert(p * 1452 as real == w);
    }
    // Each step keeps to one side of it.
    let (st, k) = (value::value(time::seconds(t)), value::value(s.k));
    value::lemma_minus_value(time::seconds(t), s.k);
    value::lemma_plus_value(z, s.packets());
    value::lemma_ratio_value(4, 10);
    value::lemma_value_sign(cubic::scale());
    value::lemma_integer_value(MAX_DATAGRAM_SIZE as nat);
    value::lemma_value_sign(cubic::datagram());
    let (cube, term) = (zero.times(zero).times(zero), cubic::scale().times(zero));
    value::lemma_value_sign(cube);
    value::lemma_value_sign(term);
    lemma_mul_by_zero_is_zero(0);
    lemma_mul_by_zero_is_zero(cubic::scale().mant as int);
    assert(cube.is_zero() && term.is_zero());
    let zv = value::value(z);
    if st <= k {
        value::lemma_rounding_ordered(st - k, x, 0 as real, zero);
        lemma_cubes_ordered(x, zero);
        lemma_products_ordered(y, zero, cubic::scale());
        value::lemma_rounding_ordered(zv + pv, z.plus(s.packets()), pv, sum);
        lemma_products_ordered(z.plus(s.packets()), sum, cubic::datagram());
    }
    if st >= k {
        value::lemma_rounding_ordered(0 as real, zero, st - k, x);
        lemma_cubes_ordered(zero, x);
        lemma_products_ordered(zero, y, cubic::scale());
        value::lemma_rounding_ordered(pv, sum, zv + pv, z.plus(s.packets()));
        lemma_products_ordered(sum, z.plus(s.packets()), cubic::datagram());
    }
}

/// No span is a negative number of seconds, and only the empty one is none.
proof fn lemma_seconds_sign(t: nat)
    ensures
        !time::seconds(t).neg,
        t > 0 ==> value::value(time::seconds(t)) > 0 as real,
        t == 0 ==> value::value(time::seconds(t)) == 0 as real,
{
    let per = time::NANOS_PER_SEC as nat;
    let (secs, nanos) = (t / per, t % per);
    lemma_fundamental_div_mod(t as int, per as int);
    let (whole, unit) = (Number::integer(secs), Number::integer(per));
    let (v, f, r, u) = (
        value::value(whole),
        value::value(fraction(nanos)),
        value::value(time::seconds(t)),
        value::unit_roundoff(),
    );
    lemma_fractions_ordered(nanos, nanos);
    value::lemma_integer_value(secs);
    value::lemma_value_sign(whole);
    value::lemma_plus_value(whole, fraction(nanos));
    value::lemma_value_sign(time::seconds(t));
    if secs > 0 {
        value::lemma_rounding_error(false, secs, 1, 0);
    }
    if nanos > 0 {
        let part = Number::integer(nanos);
        value::lemma_rounding_error(false, nanos, 1, 0);
        value::lemma_rounding_error(false, per, 1, 0);
        value::lemma_rounding_error(false, part.mant, unit.mant, part.exp - unit.exp);
        value::lemma_value_sign(fraction(nanos));
    }
    if t == 0 {
        lemma_no_seconds();
    } else {
        let sum = v + f;
        assert(sum > 0 as real);
        assert(r > 0 as real) by (nonlinear_arith)
            requires
                sum > 0 as real,
                value::abs(r - sum) <= value::abs(sum) * u,
                u == 1 as real / 0x20_0000_0000_0000 as real,
        ;
    }
}

/// 3 * (1 - beta_cubic) / (1 + beta_cubic).
spec fn friendly_rate() -> Number {
    Number::integer(3).times(cubic::one().minus(cubic::beta())).over(
        cubic::one().plus(cubic::beta()),
    )
}

proof fn lemma_friendly_rate()
    ensures
        !friendly_rate().neg,
{
    let (low, high) = (cubic::one().minus(cubic::beta()), cubic::one().plus(cubic::beta()));
    lemma_rest_value();
    value::lemma_integer_value(1);
    value::lemma_integer_value(3);
    value::lemma_ratio_value(7, 10);
    value::lemma_plus_value(cubic::one(), cubic::beta());
    let (o, b, h, u) = (
        value::value(cubic::one()),
        value::value(cubic::beta()),
        value::value(high),
        value::unit_roundoff(),
    );
    assert(h > 0 as real) by (nonlinear_arith)
        requires
            value::abs(h - (o + b)) <= value::abs(o + b) * u,
            o >= 0 as real,
            b > 0 as real,
            u == 1 as real / 0x20_0000_0000_0000 as real,
    ;
    value::lemma_value_sign(high);
    assert(!high.neg);
    assert(!Number::integer(3).times(low).neg);
}

/// W_est grows with the time, at any one round trip time.
pub proof fn law_friendly_window_rises(s: StateModel, t: nat, t1: nat, rtt: nat)
    requires
        t <= t1,
        rtt > 0,
    ensures
        s.w_est(t, rtt) matches Extended::Finite(w) && s.w_est(t1, rtt) matches Extended::Finite(
            w1,
        ) && value::value(w) <= value::value(w1),
{
    let rate = friendly_rate();
    let (x, x1, y) = (time::seconds(t), time::seconds(t1), time::seconds(rtt));
    let (g, g1) = (rate.times(x), rate.times(x1));
    let (h, h1) = (g.over(y), g1.over(y));
    lemma_friendly_rate();
    lemma_seconds_ordered(t, t1);
    lemma_seconds_sign(t);
    lemma_seconds_sign(t1);
    lemma_seconds_sign(rtt);
    value::lemma_value_sign(rate);
    value::lemma_value_sign(y);
    lemma_products_ordered(x, x1, rate);
    assert(!g.neg && !g1.neg);
    value::lemma_over_value(g, y);
    value::lemma_over_value(g1, y);
    let (a, a1, b) = (value::value(g), value::value(g1), value::value(y));
    assert(a / b <= a1 / b) by (nonlinear_arith)
        requires
            a <= a1,
            b > 0 as real,
    ;
    value::lemma_rounding_ordered(a / b, h, a1 / b, h1);
    let start = s.packets().times(cubic::beta());
    value::lemma_plus_value(start, h);
    value::lemma_plus_value(start, h1);
    let c = value::value(start);
    value::lemma_rounding_ordered(
        c + value::value(h),
        start.plus(h),
        c + value::value(h1),
        start.plus(h1),
    );
    value::lemma_integer_value(MAX_DATAGRAM_SIZE as nat);
    value::lemma_value_sign(cubic::datagram());
    lemma_products_ordered(start.plus(h), start.plus(h1), cubic::datagram());
}

/// W_est starts out at the window that a congestion event leaves, seven tenths of the
/// window before, but for an error of a `2^48`th part.
pub proof fn law_friendly_window_starts_at_reduced_window(s: StateModel, rtt: nat)
    requires
        !s.w_max.neg,
        rtt > 0,
    ensures
        ({
            let w = value::value(s.w_max);
            s.w_est(0, rtt) matches Extended::Finite(start) && value::abs(
                value::value(start) - w * (7 as real / 10 as real),
            ) <= w / 0x1_0000_0000_0000 as real
        }),
{
    let rate = friendly_rate();
    let (x, y) = (time::seconds(0), time::seconds(rtt));
    let g = rate.times(x);
    let h = g.over(y);
    let (w, u) = (value::value(s.w_max), value::unit_roundoff());
    let (p, seven) = (w / 1452 as real, 7 as real / 10 as real);
    lemma_friendly_rate();
    lemma_seconds_sign(0);
    lemma_seconds_sign(rtt);
    value::lemma_value_sign(x);
    value::lemma_value_sign(y);
    value::lemma_value_sign(s.w_max);
    // Nothing is added at the start.
    lemma_mul_by_zero_is_zero(rate.mant as int);
    assert(g == Number::zero());
    assert(h == Number::zero());
    value::lemma_value_sign(h);
    lemma_packets_value(s);
    value::lemma_ratio_value(7, 10);
    value::lemma_close_within(value::value(cubic::beta()), seven);
    lemma_times_within(s.packets(), p, 5, cubic::beta(), seven, 1);
    let start = s.packets().times(cubic::beta());
    let sum = start.plus(h);
    value::lemma_plus_value(start, h);
    value::lemma_close_within(value::value(sum), value::value(start));
    value::lemma_within_through(value::value(sum), value::value(start), p * seven, 1, 9);
    lemma_times_within(sum, p * seven, 11, cubic::datagram(), 1452 as real, 1);
    let (r, goal) = (value::value(sum.times(cubic::datagram())), w * seven);
    assert(value::abs(r - goal) <= w / 0x1_0000_0000_0000 as real) by (nonlinear_arith)
        requires
            w >= 0 as real,
            p == w / 1452 as real,
            seven == 7 as real / 10 as real,
            goal == w * seven,
            value::abs(r - (p * seven) * 1452 as real) <= value::abs((p * seven) * 1452 as real) * (
            15 as real * u),
            u == 1 as real / 0x20_0000_0000_0000 as real,
    {
        assert(p * 1452 as real == w);
        assert((p * seven) * 1452 as real == w * seven);
    }
}

/// The time in seconds.
pub open spec fn real_seconds(nanos: nat) -> real {
    nanos as real / 1_000_000_000 as real
}

/// C * (t - K)^3 + w_max, in bytes: the exact curve for a plateau of `w` bytes at the time
/// `k`.
pub open spec fn real_w_cubic(w: real, k: real, t: real) -> real {
    ((4 as real / 10 as real) * value::cubed(t - k) + w / 1452 as real) * 1452 as real
}

/// How far the rounded curve may be off: a `2^47`th part of what its terms add up to.
pub open spec fn w_cubic_slack(w: real, k: real, t: real) -> real {
    ((4 as real / 10 as real) * value::cubed(t + k) + w / 1452 as real) * 1452 as real
        / 0x8000_0000_0000 as real
}

/// w_max * beta_cubic + 3 * (1 - beta_cubic) / (1 + beta_cubic) * (t / RTT), in bytes.
pub open spec fn real_w_est(w: real, t: real, rtt: real) -> real {
    (w / 1452 as real * (7 as real / 10 as real) + (9 as real / 17 as real) * t / rtt)
        * 1452 as real
}

/// How far the rounded W_est may be off: a `2^47`th part.
pub open spec fn w_est_slack(w: real, t: real, rtt: real) -> real {
    real_w_est(w, t, rtt) / 0x8000_0000_0000 as real
}

/// The number of seconds in a span is its number of nanoseconds divided by a billion, but
/// for a relative error of eight units of rounding.
pub proof fn law_seconds_are_billions_of_nanoseconds(t: nat)
    ensures
        value::within(value::value(time::seconds(t)), real_seconds(t), 8),
        !time::seconds(t).neg,
{
    let per = time::NANOS_PER_SEC as nat;
    let (secs, nanos) = (t / per, t % per);
    lemma_fundamental_div_mod(t as int, per as int);
    let (whole, part, unit) = (
        Number::integer(secs),
        Number::integer(nanos),
        Number::integer(per),
    );
    let (billion, u) = (1_000_000_000 as real, value::unit_roundoff());
    value::lemma_integer_value(secs);
    value::lemma_integer_value(nanos);
    value::lemma_integer_value(per);
    value::lemma_close_within(value::value(part), nanos as real);
    value::lemma_close_within(value::value(unit), billion);
    lemma_over_within(part, nanos as real, 1, unit, billion, 1);
    lemma_seconds_sign(t);
    value::lemma_plus_value(whole, part.over(unit));
    let (a, b, x, y) = (
        value::value(whole),
        value::value(part.over(unit)),
        secs as real,
        nanos as real / billion,
    );
    let sum = real_seconds(t);
    assert(sum == x + y) by (nonlinear_arith)
        requires
            sum == t as real / billion,
            t as real == billion * x + nanos as real,
            y == nanos as real / billion,
            billion == 1_000_000_000 as real,
    ;
    assert(y >= 0 as real) by (nonlinear_arith)
        requires
            y == nanos as real / billion,
            nanos as real >= 0 as real,
            billion == 1_000_000_000 as real,
    ;
    assert(value::abs(a + b - sum) <= value::abs(sum) * (6 as real * u)) by (nonlinear_arith)
        requires
            sum == x + y,
            x >= 0 as real,
            y >= 0 as real,
            value::abs(a - x) <= value::abs(x) * u,
            value::abs(b - y) <= value::abs(y) * (6 as real * u),
            u == 1 as real / 0x20_0000_0000_0000 as real,
    ;
    value::lemma_close_within(value::value(time::seconds(t)), a + b);
    value::lemma_within_through(value::value(time::seconds(t)), a + b, sum, 1, 6);
}

/// The rounded difference of the time and K.
proof fn lemma_distance_value(k: Number, t: nat)
    requires
        !k.neg,
    ensures
        ({
            let (x, ts, kv) = (
                value::value(time::seconds(t).minus(k)),
                real_seconds(t),
                value::value(k),
            );
            &&& ts >= 0 as real
            &&& kv >= 0 as real
            &&& value::abs(x - (ts - kv)) <= (ts + kv) * (10 as real * value::unit_roundoff())
        }),
{
    let (s, x, ts, kv, u) = (
        value::value(time::seconds(t)),
        value::value(time::seconds(t).minus(k)),
        real_seconds(t),
        value::value(k),
        value::unit_roundoff(),
    );
    law_seconds_are_billions_of_nanoseconds(t);
    value::lemma_value_sign(k);
    value::lemma_minus_value(time::seconds(t), k);
    assert(ts >= 0 as real) by (nonlinear_arith)
        requires
            ts == t as real / 1_000_000_000 as real,
            t as real >= 0 as real,
    ;
    assert(value::abs(x - (ts - kv)) <= (ts + kv) * (10 as real * u)) by (nonlinear_arith)
        requires
            ts >= 0 as real,
            kv >= 0 as real,
            value::abs(s - ts) <= value::abs(ts) * (8 as real * u),
            value::abs(x - (s - kv)) <= value::abs(s - kv) * u,
            u == 1 as real / 0x20_0000_0000_0000 as real,
    {
        let sum = ts + kv;
        assert(value::abs(s - ts) <= sum * (8 as real * u));
        assert(value::abs(s - kv) <= 2 as real * sum);
        assert(value::abs(s - kv) * u <= (2 as real * sum) * u);
    }
}

/// The cubes of near numbers.
proof fn lemma_cubes_near(x: real, d: real, sum: real, u: real)
    requires
        value::abs(d) <= sum,
        value::abs(x - d) <= sum * (10 as real * u),
        u == 1 as real / 0x20_0000_0000_0000 as real,
    ensures
        value::abs(value::cubed(x) - value::cubed(d)) <= value::cubed(sum) * (31 as real * u),
        value::abs(value::cubed(x)) <= value::cubed(sum) * (11 as real / 10 as real),
        value::abs(value::cubed(d)) <= value::cubed(sum),
        value::cubed(sum) >= 0 as real,
{
    let (e, c) = (x - d, value::cubed(sum));
    let (ten, lim) = (10 as real * u, sum * (101 as real / 100 as real));
    assert(value::abs(x) <= lim && value::abs(d) <= lim && sum >= 0 as real) by (nonlinear_arith)
        requires
            value::abs(d) <= sum,
            value::abs(x - d) <= sum * ten,
            ten == 10 as real * u,
            u == 1 as real / 0x20_0000_0000_0000 as real,
            lim == sum * (101 as real / 100 as real),
    ;
    let f = x * x + x * d + d * d;
    value::lemma_abs_product(x, x);
    value::lemma_abs_product(x, d);
    value::lemma_abs_product(d, d);
    let (ax, ad) = (value::abs(x), value::abs(d));
    let sq = sum * sum;
    assert(ax * ax <= sq * (103 as real / 100 as real) && ax * ad <= sq * (103 as real / 100 as real)
        && ad * ad <= sq && sq >= 0 as real) by (nonlinear_arith)
        requires
            0 as real <= ax <= lim,
            0 as real <= ad <= sum,
            lim == sum * (101 as real / 100 as real),
            sq == sum * sum,
            sum >= 0 as real,
    {
        assert(ax * ax <= lim * lim);
        assert(lim * lim == sq * ((101 as real / 100 as real) * (101 as real / 100 as real)));
        assert(ax * ad <= lim * sum);
        assert(lim * sum == sq * (101 as real / 100 as real));
        assert(ad * ad <= sum * sum);
    }
    assert(value::abs(f) <= sq * (309 as real / 100 as real));
    assert(value::cubed(x) - value::cubed(d) == e * f) by (nonlinear_arith)
        requires
            e == x - d,
            f == x * x + x * d + d * d,
            value::cubed(x) == x * x * x,
            value::cubed(d) == d * d * d,
    ;
    value::lemma_abs_product(e, f);
    let (ae, af) = (value::abs(e), value::abs(f));
    assert(ae * af <= c * (31 as real * u) && c >= 0 as real) by (nonlinear_arith)
        requires
            0 as real <= ae <= sum * ten,
            0 as real <= af <= sq * (309 as real / 100 as real),
            ten == 10 as real * u,
            u == 1 as real / 0x20_0000_0000_0000 as real,
            sq == sum * sum,
            sq >= 0 as real,
            sum >= 0 as real,
            c == sum * sum * sum,
    {
        assert(ae * af <= (sum * ten) * (sq * (309 as real / 100 as real)));
        assert((sum * ten) * (sq * (309 as real / 100 as real)) == (sum * sq) * (ten * (309 as real
            / 100 as real)));
        assert(sum * sq >= 0 as real);
        assert(sum * sq == c);
    }
    value::lemma_abs_product(x * x, x);
    value::lemma_abs_product(d * d, d);
    assert((ax * ax) * ax <= c * (11 as real / 10 as real) && (ad * ad) * ad <= c)
        by (nonlinear_arith)
        requires
            0 as real <= ax <= lim,
            0 as real <= ad <= sum,
            ax * ax <= sq * (103 as real / 100 as real),
            ad * ad <= sq,
            lim == sum * (101 as real / 100 as real),
            sq == sum * sum,
            c == sum * sum * sum,
            sum >= 0 as real,
            sq >= 0 as real,
    {
        assert((ax * ax) * ax <= (sq * (103 as real / 100 as real)) * lim) by {
            assert((ax * ax) * ax <= (sq * (103 as real / 100 as real)) * ax);
            assert((sq * (103 as real / 100 as real)) * ax <= (sq * (103 as real / 100 as real))
                * lim);
        }
        assert((sq * (103 as real / 100 as real)) * lim == (sq * sum) * ((103 as real / 100 as real)
            * (101 as real / 100 as real)));
        assert(sq * sum == c);
        assert(c >= 0 as real);
        assert((ad * ad) * ad <= sq * sum) by {
            assert((ad * ad) * ad <= sq * ad);
            assert(sq * ad <= sq * sum);
        }
    }
}

/// The sum of the cubic term and the plateau, and its product with the packet size.
proof fn lemma_curve_sum(
    z: real,
    p: real,
    sum: real,
    g: real,
    r: real,
    zx: real,
    px: real,
    a: real,
    u: real,
)
    requires
        value::abs(z - zx) <= (a - px) * (42 as real * u),
        value::abs(p - px) <= px * (5 as real * u),
        value::abs(zx) <= a - px,
        0 as real <= px <= a,
        value::is_close(sum, z + p),
        value::is_close(g, 1452 as real),
        value::is_close(r, sum * g),
        u == value::unit_roundoff(),
    ensures
        value::abs(r - (zx + px) * 1452 as real) <= a * 1452 as real / 0x8000_0000_0000 as real,
{
    assert(u == 1 as real / 0x20_0000_0000_0000 as real);
    let (v, au) = (zx + px, a * u);
    assert(value::abs(z + p - v) <= 42 as real * au && value::abs(v) <= a && 0 as real <= au)
        by (nonlinear_arith)
        requires
            value::abs(z - zx) <= (a - px) * (42 as real * u),
            value::abs(p - px) <= px * (5 as real * u),
            value::abs(zx) <= a - px,
            0 as real <= px,
            px <= a,
            v == zx + px,
            au == a * u,
            u == 1 as real / 0x20_0000_0000_0000 as real,
    ;
    let zp = z + p;
    assert(value::abs(sum - zp) <= 2 as real * au) by (nonlinear_arith)
        requires
            value::abs(sum - zp) <= value::abs(zp) * u,
            value::abs(zp) <= a + 42 as real * au,
            au == a * u,
            a >= 0 as real,
            u == 1 as real / 0x20_0000_0000_0000 as real,
    {
        assert(value::abs(zp) <= 2 as real * a);
    }
    let sg = sum * g;
    assert(value::abs(sg - v * 1452 as real) <= (46 as real * 1452 as real) * au)
        by (nonlinear_arith)
        requires
            sg == sum * g,
            value::abs(sum - v) <= 44 as real * au,
            value::abs(v) <= a,
            value::abs(g - 1452 as real) <= value::abs(1452 as real) * u,
            au == a * u,
            a >= 0 as real,
            u == 1 as real / 0x20_0000_0000_0000 as real,
    {
        let (e, f) = (sum - v, g - 1452 as real);
        assert(sg - v * 1452 as real == e * 1452 as real + v * f + e * f);
        value::lemma_abs_product(v, f);
        value::lemma_abs_product(e, f);
        let (av, af, ae) = (value::abs(v), value::abs(f), value::abs(e));
        assert(av * af <= a * (1452 as real * u));
        assert(ae * af <= (44 as real * au) * (1452 as real * u));
        assert((44 as real * au) * (1452 as real * u) <= au);
        assert(a * (1452 as real * u) == 1452 as real * au);
    }
    assert(value::abs(r - sg) <= (2 as real * 1452 as real) * au) by (nonlinear_arith)
        requires
            value::abs(r - sg) <= value::abs(sg) * u,
            value::abs(sg - v * 1452 as real) <= (46 as real * 1452 as real) * au,
            value::abs(v) <= a,
            au == a * u,
            a >= 0 as real,
            u == 1 as real / 0x20_0000_0000_0000 as real,
    {
        assert(value::abs(sg) <= (2 as real * 1452 as real) * a);
        assert(value::abs(sg) * u <= ((2 as real * 1452 as real) * a) * u);
    }
    let s = a * 1452 as real / 0x8000_0000_0000 as real;
    assert((48 as real * 1452 as real) * au <= s) by (nonlinear_arith)
        requires
            s == a * 1452 as real / 0x8000_0000_0000 as real,
            au == a * u,
            a >= 0 as real,
            u == 1 as real / 0x20_0000_0000_0000 as real,
    ;
}

/// W_cubic is the curve of the RFC, C * (t - K)^3 + w_max, at every time.
pub proof fn law_w_cubic_is_the_curve(s: StateModel, t: nat)
    requires
        !s.w_max.neg,
        !s.k.neg,
    ensures
        ({
            let (w, k, ts) = (value::value(s.w_max), value::value(s.k), real_seconds(t));
            value::abs(value::value(s.w_cubic(t)) - real_w_cubic(w, k, ts)) <= w_cubic_slack(
                w,
                k,
                ts,
            )
        }),
{
    let (w, k, ts, u) = (
        value::value(s.w_max),
        value::value(s.k),
        real_seconds(t),
        value::unit_roundoff(),
    );
    let p = w / 1452 as real;
    let x = time::seconds(t).minus(s.k);
    let (x2, x3) = (x.times(x), x.times(x).times(x));
    let z = cubic::scale().times(x3);
    let (xv, zv, four) = (value::value(x), value::value(z), 4 as real / 10 as real);
    value::lemma_value_sign(s.w_max);
    lemma_packets_value(s);
    lemma_distance_value(s.k, t);
    let (d, total) = (ts - k, ts + k);
    lemma_cubes_near(xv, d, total, u);
    // The products are rounded four times, with one factor that is rounded.
    value::lemma_within_self(xv);
    lemma_times_within(x, xv, 0, x, xv, 0);
    lemma_times_within(x2, xv * xv, 3, x, xv, 0);
    value::lemma_ratio_value(4, 10);
    value::lemma_close_within(value::value(cubic::scale()), four);
    lemma_times_within(cubic::scale(), four, 1, x3, xv * xv * xv, 6);
    let (cx, cd, ct) = (value::cubed(xv), value::cubed(d), value::cubed(total));
    let a = four * ct + p;
    assert(p >= 0 as real) by (nonlinear_arith)
        requires
            p == w / 1452 as real,
            w >= 0 as real,
    ;
    assert(value::abs(zv - four * cd) <= (a - p) * (42 as real * u) && value::abs(four * cd) <= a
        - p && p <= a) by (nonlinear_arith)
        requires
            a == four * ct + p,
            four == 4 as real / 10 as real,
            value::abs(zv - four * cx) <= value::abs(four * cx) * (10 as real * u),
            value::abs(cx - cd) <= ct * (31 as real * u),
            value::abs(cx) <= ct * (11 as real / 10 as real),
            value::abs(cd) <= ct,
            ct >= 0 as real,
            u == 1 as real / 0x20_0000_0000_0000 as real,
    {
        assert(value::abs(four * cx) <= four * ct * (11 as real / 10 as real));
        assert(value::abs(four * cx) * (10 as real * u) <= (four * ct * (11 as real / 10 as real))
            * (10 as real * u));
        assert(value::abs(four * cx - four * cd) <= four * ct * (31 as real * u));
        assert((four * ct * (11 as real / 10 as real)) * (10 as real * u) == four * ct * (
        11 as real * u));
    }
    let sum = z.plus(s.packets());
    value::lemma_plus_value(z, s.packets());
    value::lemma_integer_value(MAX_DATAGRAM_SIZE as nat);
    value::lemma_times_value(sum, cubic::datagram());
    lemma_curve_sum(
        zv,
        value::value(s.packets()),
        value::value(sum),
        value::value(cubic::datagram()),
        value::value(s.w_cubic(t)),
        four * cd,
        p,
        a,
        u,
    );
}

/// W_est is the line of the RFC, w_max * beta_cubic + 3 * (1 - beta_cubic) /
/// (1 + beta_cubic) * (t / RTT), at every time and for every round trip time; without a
/// round trip time it is infinite, and undefined at the start.
pub proof fn law_w_est_is_the_line(s: StateModel, t: nat, rtt: nat)
    requires
        !s.w_max.neg,
    ensures
        rtt > 0 ==> {
            let (w, ts, tr) = (value::value(s.w_max), real_seconds(t), real_seconds(rtt));
            &&& tr > 0 as real
            &&& real_w_est(w, ts, tr) >= 0 as real
            &&& s.w_est(t, rtt) matches Extended::Finite(x) && value::abs(
                value::value(x) - real_w_est(w, ts, tr),
            ) <= w_est_slack(w, ts, tr)
        },
        rtt == 0 && t > 0 ==> s.w_est(t, rtt) is Infinite,
        rtt == 0 && t == 0 ==> s.w_est(t, rtt) is Undefined,
{
    if rtt > 0 {
        let (w, ts, tr, u) = (
            value::value(s.w_max),
            real_seconds(t),
            real_seconds(rtt),
            value::unit_roundoff(),
        );
        let (p, seven, three) = (w / 1452 as real, 7 as real / 10 as real, 3 as real / 10 as real);
        let (low, high) = (cubic::one().minus(cubic::beta()), cubic::one().plus(cubic::beta()));
        let rate = friendly_rate();
        assert(tr > 0 as real && ts >= 0 as real) by (nonlinear_arith)
            requires
                tr == rtt as real / 1_000_000_000 as real,
                ts == t as real / 1_000_000_000 as real,
                rtt as real > 0 as real,
                t as real >= 0 as real,
        ;
        value::lemma_value_sign(s.w_max);
        lemma_packets_value(s);
        lemma_rest_value();
        lemma_friendly_rate();
        value::lemma_integer_value(1);
        value::lemma_integer_value(3);
        value::lemma_ratio_value(7, 10);
        value::lemma_close_within(value::value(Number::integer(3)), 3 as real);
        value::lemma_close_within(value::value(cubic::beta()), seven);
        lemma_times_within(Number::integer(3), 3 as real, 1, low, three, 8);
        // 1 + beta_cubic
        let (o, b, h) = (
            value::value(cubic::one()),
            value::value(cubic::beta()),
            value::value(high),
        );
        let ob = 17 as real / 10 as real;
        value::lemma_plus_value(cubic::one(), cubic::beta());
        assert(value::abs(o + b - ob) <= value::abs(ob) * (1 as real * u)) by (nonlinear_arith)
            requires
                value::abs(o - 1 as real) <= value::abs(1 as real) * u,
                value::abs(b - seven) <= value::abs(seven) * u,
                seven == 7 as real / 10 as real,
                ob == 17 as real / 10 as real,
                u == 1 as real / 0x20_0000_0000_0000 as real,
        ;
        value::lemma_close_within(h, o + b);
        value::lemma_within_through(h, o + b, ob, 1, 1);
        value::lemma_value_sign(high);
        assert(h > 0 as real) by (nonlinear_arith)
            requires
                value::abs(h - ob) <= value::abs(ob) * (3 as real * u),
                ob == 17 as real / 10 as real,
                u == 1 as real / 0x20_0000_0000_0000 as real,
        ;
        assert(!Number::integer(3).times(low).neg);
        lemma_over_within(Number::integer(3).times(low), 3 as real * three, 12, high, ob, 3);
        let nine = 9 as real / 17 as real;
        assert(3 as real * three / ob == nine) by (nonlinear_arith)
            requires
                three == 3 as real / 10 as real,
                ob == 17 as real / 10 as real,
                nine == 9 as real / 17 as real,
        ;
        // The growth, and what it starts from.
        law_seconds_are_billions_of_nanoseconds(t);
        law_seconds_are_billions_of_nanoseconds(rtt);
        let (x, y) = (time::seconds(t), time::seconds(rtt));
        lemma_times_within(rate, nine, 19, x, ts, 8);
        assert(!rate.times(x).neg);
        lemma_over_within(rate.times(x), nine * ts, 30, y, tr, 8);
        let growth = rate.times(x).over(y);
        let start = s.packets().times(cubic::beta());
        lemma_times_within(s.packets(), p, 5, cubic::beta(), seven, 1);
        let (gv, sv, gx, sx) = (
            value::value(growth),
            value::value(start),
            nine * ts / tr,
            p * seven,
        );
        assert(gx >= 0 as real && sx >= 0 as real) by (nonlinear_arith)
            requires
                gx == nine * ts / tr,
                sx == p * seven,
                p == w / 1452 as real,
                w >= 0 as real,
                ts >= 0 as real,
                tr > 0 as real,
                nine == 9 as real / 17 as real,
                seven == 7 as real / 10 as real,
        {
            assert(nine * ts >= 0 as real);
        }
        assert(value::abs(sv + gv - (sx + gx)) <= value::abs(sx + gx) * (42 as real * u))
            by (nonlinear_arith)
            requires
                gx >= 0 as real,
                sx >= 0 as real,
                value::abs(sv - sx) <= value::abs(sx) * (9 as real * u),
                value::abs(gv - gx) <= value::abs(gx) * (42 as real * u),
                u == 1 as real / 0x20_0000_0000_0000 as real,
        ;
        let sum = start.plus(growth);
        value::lemma_plus_value(start, growth);
        value::lemma_close_within(value::value(sum), sv + gv);
        value::lemma_within_through(value::value(sum), sv + gv, sx + gx, 1, 42);
        lemma_times_within(sum, sx + gx, 44, cubic::datagram(), 1452 as real, 1);
        let (r, goal) = (value::value(sum.times(cubic::datagram())), (sx + gx) * 1452 as real);
        assert(goal >= 0 as real && value::abs(r - goal) <= goal / 0x8000_0000_0000 as real)
            by (nonlinear_arith)
            requires
                goal == (sx + gx) * 1452 as real,
                gx >= 0 as real,
                sx >= 0 as real,
                value::abs(r - goal) <= value::abs(goal) * (48 as real * u),
                u == 1 as real / 0x20_0000_0000_0000 as real,
        ;
    }
}

/// K is the time in which the curve climbs the three tenths of w_max that a congestion
/// event cuts off: C * K^3 = w_max * (1 - beta_cubic), in packets.
pub proof fn law_k_is_the_time_of_the_climb(s: StateModel)
    requires
        !s.w_max.neg,
    ensures
        ({
            let (k, p) = (value::value(s.cubic_k()), value::value(s.w_max) / 1452 as real);
            let climb = p * (3 as real / 4 as real);
            &&& !s.cubic_k().neg
            &&& k >= 0 as real
            &&& value::abs(value::cubed(k) - climb) <= climb / 0x1_0000_0000_0000 as real
        }),
{
    lemma_k_value(s);
    value::lemma_value_sign(s.w_max);
    value::lemma_value_sign(s.cubic_k());
    let (c, p, u) = (
        value::cubed(value::value(s.cubic_k())),
        value::value(s.w_max) / 1452 as real,
        value::unit_roundoff(),
    );
    let climb = p * (3 as real / 4 as real);
    assert(value::abs(c - climb) <= climb / 0x1_0000_0000_0000 as real) by (nonlinear_arith)
        requires
            climb == p * (3 as real / 4 as real),
            p == value::value(s.w_max) / 1452 as real,
            value::value(s.w_max) >= 0 as real,
            value::abs(c - climb) <= value::abs(climb) * (27 as real * u),
            u == 1 as real / 0x20_0000_0000_0000 as real,
    ;
}

} // verus!
