//! The binary64 numbers and the rounding of exact quotients to them.
//!
//! A number is `(-1)^neg * mant * 2^exp`; a nonzero one has a significand of
//! exactly 53 bits. Every arithmetic operation is specified as its exact result,
//! rounded once to the nearest such number, ties going to the even significand.

use vstd::arithmetic::div_mod::*;
use vstd::arithmetic::mul::*;
use vstd::arithmetic::power2::*;
use vstd::prelude::*;

verus! {

/// The smallest 53-bit significand.
pub const SIGNIFICAND_MIN: u64 = 0x10_0000_0000_0000;

/// The exponents of the normal numbers of the binary64 format, for a significand
/// that is read as an integer.
pub const EXPONENT_MIN: i32 = -1074;

pub const EXPONENT_MAX: i32 = 971;

/// The number `(-1)^neg * mant * 2^exp`.
pub struct Number {
    pub neg: bool,
    pub mant: nat,
    pub exp: int,
}

impl Number {
    pub open spec fn zero() -> Number {
        Number { neg: false, mant: 0, exp: 0 }
    }

    pub open spec fn is_zero(self) -> bool {
        self.mant == 0
    }

    /// Zero in its one representation, or a normal number of the binary64 format.
    pub open spec fn wf(self) -> bool {
        if self.mant == 0 {
            self == Number::zero()
        } else {
            &&& SIGNIFICAND_MIN <= self.mant < 2 * SIGNIFICAND_MIN
            &&& EXPONENT_MIN <= self.exp <= EXPONENT_MAX
        }
    }
}

/// `x * 2^k` where `k` is positive, else `x`.
pub open spec fn scaled_up(x: nat, k: int) -> nat {
    if k > 0 {
        x * pow2(k as nat)
    } else {
        x
    }
}

/// Whether the quotient `n / d` has exactly 53 integer bits once it is multiplied
/// by `2^-s`.
pub open spec fn has_53_bits(n: nat, d: nat, s: int) -> bool {
    scaled_up(d, s) * SIGNIFICAND_MIN <= scaled_up(n, -s) < scaled_up(d, s) * (2
        * SIGNIFICAND_MIN)
}

/// The integer nearest to `n / d`; of two that are equally near, the even one.
pub open spec fn nearest_integer(n: nat, d: nat) -> nat {
    let below = n / d;
    if 2 * (n % d) < d || (2 * (n % d) == d && below % 2 == 0) {
        below
    } else {
        below + 1
    }
}

/// The number with significand `mant`, which rounding may have carried to 54 bits.
pub open spec fn carried(neg: bool, mant: nat, exp: int) -> Number {
    if mant == 2 * SIGNIFICAND_MIN {
        Number { neg, mant: SIGNIFICAND_MIN as nat, exp: exp + 1 }
    } else {
        Number { neg, mant, exp }
    }
}

/// `(-1)^neg * (n / d) * 2^e`, rounded to the nearest number, ties to even.
pub open spec fn rounded(neg: bool, n: nat, d: nat, e: int) -> Number {
    if n == 0 {
        Number::zero()
    } else {
        let s = choose|s: int| has_53_bits(n, d, s);
        carried(neg, nearest_integer(scaled_up(n, -s), scaled_up(d, s)), e + s)
    }
}

impl Number {
    /// The number nearest to the integer `n`.
    pub open spec fn integer(n: nat) -> Number {
        rounded(false, n, 1, 0)
    }

    /// The number nearest to `n / d`.
    pub open spec fn ratio(n: nat, d: nat) -> Number {
        rounded(false, n, d, 0)
    }

    pub open spec fn negated(self) -> Number {
        if self.is_zero() {
            self
        } else {
            Number { neg: !self.neg, ..self }
        }
    }

    /// The value in units of `2^e`, for an `e` that is no greater than the exponent.
    pub open spec fn units(self, e: int) -> int {
        let magnitude = (self.mant * pow2((self.exp - e) as nat)) as int;
        if self.neg {
            -magnitude
        } else {
            magnitude
        }
    }

    /// The smaller of the two exponents: the unit in which both values are whole.
    pub open spec fn common_exponent(self, other: Number) -> int {
        if self.exp <= other.exp {
            self.exp
        } else {
            other.exp
        }
    }

    pub open spec fn plus(self, other: Number) -> Number {
        let e = self.common_exponent(other);
        let total = self.units(e) + other.units(e);
        if total < 0 {
            rounded(true, (-total) as nat, 1, e)
        } else {
            rounded(false, total as nat, 1, e)
        }
    }

    pub open spec fn minus(self, other: Number) -> Number {
        self.plus(other.negated())
    }

    pub open spec fn times(self, other: Number) -> Number {
        rounded(self.neg != other.neg, self.mant * other.mant, 1, self.exp + other.exp)
    }

    /// The quotient; `other` is not zero.
    pub open spec fn over(self, other: Number) -> Number {
        rounded(self.neg != other.neg, self.mant, other.mant, self.exp - other.exp)
    }

    pub open spec fn less_than(self, other: Number) -> bool {
        let e = self.common_exponent(other);
        self.units(e) < other.units(e)
    }

    /// The integer part of a number that is not negative, else 0.
    pub open spec fn truncated(self) -> nat {
        if self.neg {
            0
        } else if self.exp >= 0 {
            self.mant * pow2(self.exp as nat)
        } else {
            self.mant / pow2((-self.exp) as nat)
        }
    }

    /// The encoding in the binary64 interchange format: the sign bit, the biased
    /// exponent, and the significand without its leading bit.
    pub open spec fn encoding(self) -> int {
        if self.is_zero() {
            0
        } else {
            (if self.neg {
                0x8000_0000_0000_0000int
            } else {
                0
            }) + (self.exp + 1075) * SIGNIFICAND_MIN + (self.mant - SIGNIFICAND_MIN)
        }
    }

    /// The integer part, clamped to what a `usize` can hold.
    pub open spec fn clamped(self) -> nat {
        if self.truncated() <= usize::MAX {
            self.truncated()
        } else {
            usize::MAX as nat
        }
    }
}

pub open spec fn cube(x: nat) -> nat {
    x * x * x
}

/// The integer part of the cube root of `n`.
pub open spec fn integer_cube_root(n: nat) -> nat {
    choose|c: nat| #[trigger] cube(c) <= n < cube(c + 1)
}

impl Number {
    /// How many places the significand moves before its cube root is taken: few
    /// enough to leave the integer part of the root at 54 bits, and so that the
    /// exponent becomes a multiple of three.
    pub open spec fn cube_root_shift(self) -> nat {
        (107 + (self.exp - 107) % 3) as nat
    }

    /// The cube root of a number that is not negative. The integer part `c` of the
    /// shifted root is one bit longer than a significand, so that whatever lies
    /// between `c` and `c + 1` rounds as `c + 1/2` does.
    pub open spec fn cube_root(self) -> Number {
        if self.is_zero() {
            self
        } else {
            let shift = self.cube_root_shift();
            let n = self.mant * pow2(shift);
            let c = integer_cube_root(n);
            let rest: nat = if cube(c) == n {
                0
            } else {
                1
            };
            rounded(false, 2 * c + rest, 2, (self.exp - shift) / 3)
        }
    }
}

/// How `scaled_up` of both signs of `s` splits into two powers of two.
pub proof fn lemma_scales(n: nat, d: nat, s: int) -> (r: (nat, nat))
    ensures
        scaled_up(n, -s) == n * pow2(r.0),
        scaled_up(d, s) == d * pow2(r.1),
        r.0 - r.1 == -s,
        d > 0 ==> scaled_up(d, s) > 0,
{
    let a: nat = if s < 0 { (-s) as nat } else { 0 };
    let b: nat = if s > 0 { s as nat } else { 0 };
    lemma2_to64();
    lemma_mul_basics(n as int);
    lemma_mul_basics(d as int);
    lemma_pow2_pos(b);
    if d > 0 {
        lemma_mul_strictly_positive(d as int, pow2(b) as int);
    }
    (a, b)
}

/// Two quotients that differ by a power of two, at the scales that make up for it,
/// are one quotient.
proof fn lemma_same_quotient(n: nat, d: nat, s: int, n1: nat, d1: nat, j: nat)
    requires
        n * d1 == n1 * d * pow2(j),
    ensures
        scaled_up(n, -s) * scaled_up(d1, s - j) == scaled_up(n1, -(s - j)) * scaled_up(d, s),
{
    let (a, b) = lemma_scales(n, d, s);
    let (a1, b1) = lemma_scales(n1, d1, s - j);
    assert(j + a + b1 == a1 + b);
    lemma_pow2_adds(j + a, b1);
    lemma_pow2_adds(j, a);
    lemma_pow2_adds(a1, b);
    let (pa, pb, pa1, pb1, pj) = (
        pow2(a) as int,
        pow2(b) as int,
        pow2(a1) as int,
        pow2(b1) as int,
        pow2(j) as int,
    );
    let (x, y, x1, y1) = (n as int, d as int, n1 as int, d1 as int);
    assert(pj * pa * pb1 == pa1 * pb);
    assert((x * pa) * (y1 * pb1) == (x1 * pa1) * (y * pb)) by (nonlinear_arith)
        requires
            pj * pa * pb1 == pa1 * pb,
            x * y1 == x1 * y * pj,
    {
        assert((x * pa) * (y1 * pb1) == (x * y1) * (pa * pb1));
        assert((x1 * y * pj) * (pa * pb1) == (x1 * y) * (pj * pa * pb1));
        assert((x1 * y) * (pa1 * pb) == (x1 * pa1) * (y * pb));
    }
}

/// `nearest_integer` depends on the quotient alone.
proof fn lemma_nearest_integer_scale(n: nat, d: nat, c: nat)
    requires
        d > 0,
        c > 0,
    ensures
        nearest_integer(n * c, d * c) == nearest_integer(n, d),
{
    let q = n as int / d as int;
    let r = n as int % d as int;
    lemma_fundamental_div_mod(n as int, d as int);
    assert(n * c == q * (d * c) + r * c) by (nonlinear_arith)
        requires
            n == d * q + r,
    ;
    assert(0 <= r * c < d * c) by (nonlinear_arith)
        requires
            0 <= r < d,
            c > 0,
    ;
    lemma_fundamental_div_mod_converse((n * c) as int, (d * c) as int, q, r * c);
    assert(2 * (r * c) < d * c <==> 2 * r < d) by (nonlinear_arith)
        requires
            c > 0,
    ;
    assert(2 * (r * c) == d * c <==> 2 * r == d) by (nonlinear_arith)
        requires
            c > 0,
    ;
}

/// `nearest_integer` of equal quotients.
proof fn lemma_nearest_integer_ratio(n: nat, d: nat, n1: nat, d1: nat)
    requires
        d > 0,
        d1 > 0,
        n * d1 == n1 * d,
    ensures
        nearest_integer(n, d) == nearest_integer(n1, d1),
{
    lemma_nearest_integer_scale(n, d, d1);
    lemma_nearest_integer_scale(n1, d1, d);
    assert(d * d1 == d1 * d) by (nonlinear_arith);
}

/// Of two quotients the smaller one has no greater nearest integer.
pub proof fn lemma_nearest_integer_ordered(n: nat, d: nat, n1: nat, d1: nat)
    requires
        d > 0,
        d1 > 0,
        n * d1 <= n1 * d,
    ensures
        nearest_integer(n, d) <= nearest_integer(n1, d1),
{
    lemma_fundamental_div_mod(n as int, d as int);
    lemma_fundamental_div_mod(n1 as int, d1 as int);
    let (q, r) = (n as int / d as int, n as int % d as int);
    let (q1, r1) = (n1 as int / d1 as int, n1 as int % d1 as int);
    assert((q * d + r) * d1 <= (q1 * d1 + r1) * d) by (nonlinear_arith)
        requires
            n == d * q + r,
            n1 == d1 * q1 + r1,
            n * d1 <= n1 * d,
    ;
    assert(q <= q1) by (nonlinear_arith)
        requires
            (q * d + r) * d1 <= (q1 * d1 + r1) * d,
            0 <= r,
            r1 < d1,
            d > 0,
            d1 > 0,
    {
        assert(q * (d * d1) <= (q1 * d1 + r1) * d);
        assert((q1 * d1 + r1) * d < (q1 * d1 + d1) * d);
        assert((q1 * d1 + d1) * d == (q1 + 1) * (d * d1));
        assert(q * (d * d1) < (q1 + 1) * (d * d1));
    }
    if q == q1 {
        assert(r * d1 <= r1 * d) by (nonlinear_arith)
            requires
                (q * d + r) * d1 <= (q1 * d1 + r1) * d,
                q == q1,
        ;
        // The same half, or a later one.
        assert(2 * r >= d ==> 2 * r1 >= d1) by (nonlinear_arith)
            requires
                r * d1 <= r1 * d,
                d > 0,
                d1 > 0,
        {
            if 2 * r >= d {
                assert((2 * r) * d1 >= d * d1);
                assert((2 * r1) * d >= d1 * d);
            }
        }
        assert(2 * r > d ==> 2 * r1 > d1) by (nonlinear_arith)
            requires
                r * d1 <= r1 * d,
                d > 0,
                d1 > 0,
        {
            if 2 * r > d {
                assert((2 * r) * d1 > d * d1);
                assert((2 * r1) * d > d1 * d);
            }
        }
    }
}

/// At most one scale gives 53 bits.
proof fn lemma_scale_is_unique(n: nat, d: nat, s: int, t: int)
    requires
        d > 0,
        has_53_bits(n, d, s),
        has_53_bits(n, d, t),
    ensures
        s == t,
{
    lemma_scales_are_ordered(n, d, s, t);
    lemma_scales_are_ordered(n, d, t, s);
}

proof fn lemma_scales_are_ordered(n: nat, d: nat, s: int, t: int)
    requires
        d > 0,
        has_53_bits(n, d, s),
        has_53_bits(n, d, t),
    ensures
        t <= s,
{
    if s < t {
        let j = (t - s) as nat;
        lemma_pow2_unfold(j);
        lemma_pow2_pos((j - 1) as nat);
        let k = pow2(j) as int;
        // At scale `t` the quotient is `2^j` times smaller than at scale `s`.
        let (a, b) = lemma_scales(n, d, s);
        let (a1, b1) = lemma_scales(n, d, t);
        assert(a + b1 == a1 + b + j);
        lemma_pow2_adds(a, b1);
        lemma_pow2_adds(a1 + b, j);
        lemma_pow2_adds(a1, b);
        let (pa, pb, pa1, pb1) = (
            pow2(a) as int,
            pow2(b) as int,
            pow2(a1) as int,
            pow2(b1) as int,
        );
        lemma_pow2_pos(a);
        lemma_pow2_pos(a1);
        let (x, y, h) = (n as int, d as int, SIGNIFICAND_MIN as int);
        assert(pa * pb1 == pa1 * pb * k);
        assert(x * pa >= (y * pb) * (2 * h)) by (nonlinear_arith)
            requires
                pa * pb1 == pa1 * pb * k,
                k >= 2,
                pa > 0,
                pa1 > 0,
                y * pb > 0,
                h > 0,
                (y * pb1) * h <= x * pa1,
        {
            assert((y * pb1) * h * pa <= x * pa1 * pa);
            assert((y * pb1) * h * pa == (y * h) * (pa * pb1));
            assert((y * h) * (pa1 * pb * k) == (y * pb) * h * pa1 * k);
            assert((y * pb) * h * pa1 > 0);
            assert((y * pb) * h * pa1 * k >= (y * pb) * h * pa1 * 2);
            assert(((y * pb) * (2 * h)) * pa1 <= (x * pa) * pa1);
        }
    }
}

/// Some scale gives 53 bits, at or above any scale that gives no fewer.
proof fn lemma_scale_exists_above(n: nat, d: nat, s: int) -> (t: int)
    requires
        d > 0,
        scaled_up(d, s) * SIGNIFICAND_MIN <= scaled_up(n, -s),
    ensures
        has_53_bits(n, d, t),
    decreases scaled_up(n, -s) / scaled_up(d, s),
{
    let _ = lemma_scales(n, d, s);
    let _ = lemma_scales(n, d, s + 1);
    let x = scaled_up(n, -s) as int;
    let y = scaled_up(d, s) as int;
    let h = SIGNIFICAND_MIN as int;
    if x < y * (2 * h) {
        s
    } else {
        let x1 = scaled_up(n, -(s + 1)) as int;
        let y1 = scaled_up(d, s + 1) as int;
        lemma2_to64();
        if s < 0 {
            lemma_pow2_unfold((-s) as nat);
            lemma_mul_basics(n as int);
            let p = pow2((-s - 1) as nat) as int;
            assert(n * (2 * p) == 2 * (n * p)) by (nonlinear_arith);
            assert(x == 2 * x1 && y == y1);
            assert(y1 * h <= x1) by (nonlinear_arith)
                requires
                    y * (2 * h) <= x,
                    x == 2 * x1,
                    y == y1,
            ;
        } else {
            lemma_pow2_unfold((s + 1) as nat);
            lemma_mul_basics(d as int);
            let p = pow2(s as nat) as int;
            assert(d * (2 * p) == 2 * (d * p)) by (nonlinear_arith);
            assert(x == x1 && y1 == 2 * y);
            assert(y1 * h <= x1) by (nonlinear_arith)
                requires
                    y * (2 * h) <= x,
                    x == x1,
                    y1 == 2 * y,
            ;
        }
        assert(x1 / y1 < x / y) by {
            lemma_fundamental_div_mod(x, y);
            lemma_fundamental_div_mod(x1, y1);
            let (q, r, q1, r1) = (x / y, x % y, x1 / y1, x1 % y1);
            assert(q1 < q) by (nonlinear_arith)
                requires
                    x == y * q + r,
                    x1 == y1 * q1 + r1,
                    0 <= r < y,
                    0 <= r1 < y1,
                    y > 0,
                    y * (2 * h) <= x,
                    h > 0,
                    (x == 2 * x1 && y1 == y) || (x == x1 && y1 == 2 * y),
            {
                // `x1 / y1` is half of `x / y`, which is at least 2.
                assert(y1 * q1 <= x1);
                assert(2 * (y * q1) <= x);
                assert(2 * (y * q1) < y * (q + 1));
                assert(2 * q1 < q + 1);
                assert(y * (2 * h) < y * (q + 1));
                assert(2 * h < q + 1);
            }
        }
        lemma_div_pos_is_pos(x1, y1);
        lemma_scale_exists_above(n, d, s + 1)
    }
}

/// Every positive quotient has 53 bits at some scale.
pub proof fn lemma_scale_exists(n: nat, d: nat) -> (s: int)
    requires
        n > 0,
        d > 0,
    ensures
        has_53_bits(n, d, s),
{
    let k = d + 53;
    lemma_pow2_exceeds(d);
    lemma_pow2_adds(d, 53);
    lemma2_to64_rest();
    let p = pow2(d) as int;
    let h = SIGNIFICAND_MIN as int;
    assert(pow2(53) == 2 * h);
    assert(d * h <= n * (p * (2 * h))) by (nonlinear_arith)
        requires
            n >= 1,
            d <= p,
            0 < d,
            h > 0,
    {
        assert(p * (2 * h) <= n * (p * (2 * h)));
        assert(d * h <= p * h);
    }
    lemma_scale_exists_above(n, d, -(k as int))
}

proof fn lemma_pow2_exceeds(k: nat)
    ensures
        k < pow2(k),
    decreases k,
{
    lemma2_to64();
    if k > 0 {
        lemma_pow2_exceeds((k - 1) as nat);
        lemma_pow2_unfold(k);
    }
}

/// The rounding at a scale that is known to give 53 bits.
pub proof fn lemma_rounded_at(neg: bool, n: nat, d: nat, e: int, s: int)
    requires
        n > 0,
        d > 0,
        has_53_bits(n, d, s),
    ensures
        rounded(neg, n, d, e) == carried(
            neg,
            nearest_integer(scaled_up(n, -s), scaled_up(d, s)),
            e + s,
        ),
{
    let t = choose|t: int| has_53_bits(n, d, t);
    lemma_scale_is_unique(n, d, s, t);
}

/// Rounding depends on the exact value alone: `n / d * 2^e` and
/// `n1 / d1 * 2^(e + j)` round alike where they are equal.
pub proof fn lemma_rounded_same_value(
    neg: bool,
    n: nat,
    d: nat,
    e: int,
    n1: nat,
    d1: nat,
    j: nat,
)
    requires
        n > 0,
        n1 > 0,
        d > 0,
        d1 > 0,
        n * d1 == n1 * d * pow2(j),
    ensures
        rounded(neg, n, d, e) == rounded(neg, n1, d1, e + j),
{
    let s = lemma_scale_exists(n, d);
    let _ = lemma_scales(n, d, s);
    let _ = lemma_scales(n1, d1, s - j);
    let x = scaled_up(n, -s);
    let y = scaled_up(d, s);
    let x1 = scaled_up(n1, -(s - j));
    let y1 = scaled_up(d1, s - j);
    lemma_same_quotient(n, d, s, n1, d1, j);
    let h = SIGNIFICAND_MIN as int;
    assert(y1 * h <= x1 && x1 < y1 * (2 * h)) by (nonlinear_arith)
        requires
            x * y1 == x1 * y,
            y * h <= x,
            x < y * (2 * h),
            y > 0,
            y1 > 0,
            h > 0,
    {
        assert((y * h) * y1 <= x * y1);
        assert((y1 * h) * y <= x1 * y);
        assert(x * y1 < (y * (2 * h)) * y1);
        assert(x1 * y < (y1 * (2 * h)) * y);
    }
    lemma_nearest_integer_ratio(x, y, x1, y1);
    lemma_rounded_at(neg, n, d, e, s);
    lemma_rounded_at(neg, n1, d1, e + j, s - j);
}

/// The significand and the exponent of a rounded quotient that lies between two
/// powers of two.
pub proof fn lemma_rounded_range(neg: bool, n: nat, d: nat, e: int, k: nat, l: nat)
    requires
        d > 0,
        d * pow2(k) <= n < d * pow2(l),
    ensures
        rounded(neg, n, d, e).neg == neg,
        SIGNIFICAND_MIN <= rounded(neg, n, d, e).mant < 2 * SIGNIFICAND_MIN,
        e + k - 52 <= rounded(neg, n, d, e).exp <= e + l - 52,
{
    lemma_pow2_pos(k);
    lemma_mul_strictly_positive(d as int, pow2(k) as int);
    let s = lemma_scale_exists(n, d);
    lemma_rounded_at(neg, n, d, e, s);
    let (a, b) = lemma_scales(n, d, s);
    lemma2_to64_rest();
    let h = SIGNIFICAND_MIN as int;
    let x = scaled_up(n, -s) as int;
    let y = scaled_up(d, s) as int;
    // The rounded quotient has 53 bits, or is `2^53`.
    lemma_fundamental_div_mod(x, y);
    let (q, r) = (x / y, x % y);
    assert(h <= q < 2 * h) by (nonlinear_arith)
        requires
            x == y * q + r,
            0 <= r < y,
            y * h <= x < y * (2 * h),
            h > 0,
    {
        assert(y * h < y * (q + 1));
        assert(y * q < y * (2 * h));
    }
    let (pa, pb, pk, pl) = (
        pow2(a) as int,
        pow2(b) as int,
        pow2(k) as int,
        pow2(l) as int,
    );
    lemma_pow2_pos(a);
    lemma_pow2_pos(b);
    lemma_pow2_adds(k, a);
    lemma_pow2_adds(b, 53);
    lemma_pow2_adds(b, 52);
    lemma_pow2_adds(l, a);
    assert(pk * pa < pb * (2 * h)) by (nonlinear_arith)
        requires
            d > 0,
            pa > 0,
            d * pk <= n,
            n * pa < (d * pb) * (2 * h),
    {
        assert((d * pk) * pa <= n * pa);
        assert(d * (pk * pa) < d * (pb * (2 * h)));
    }
    if k + a >= b + 53 {
        if k + a > b + 53 {
            lemma_pow2_strictly_increases(b + 53, k + a);
        }
    }
    assert(pb * h < pl * pa) by (nonlinear_arith)
        requires
            d > 0,
            pa > 0,
            n < d * pl,
            (d * pb) * h <= n * pa,
    {
        assert(n * pa < (d * pl) * pa);
        assert(d * (pb * h) < d * (pl * pa));
    }
    if b + 52 >= l + a {
        if b + 52 > l + a {
            lemma_pow2_strictly_increases(l + a, b + 52);
        }
    }
}

/// A value that is a number already rounds to itself.
pub proof fn lemma_rounded_exact(neg: bool, mant: nat, k: nat, e: int)
    requires
        SIGNIFICAND_MIN <= mant < 2 * SIGNIFICAND_MIN,
    ensures
        rounded(neg, mant * pow2(k), 1, e) == (Number { neg, mant, exp: e + k }),
{
    let p = pow2(k) as int;
    lemma_pow2_pos(k);
    lemma2_to64();
    lemma_mul_strictly_positive(mant as int, p);
    let h = SIGNIFICAND_MIN as int;
    assert(p * h <= mant * p && mant * p < p * (2 * h)) by (nonlinear_arith)
        requires
            h <= mant < 2 * h,
            p > 0,
    ;
    lemma_mul_basics(p);
    lemma_mul_basics(mant * p);
    assert(has_53_bits(mant * pow2(k), 1, k as int));
    lemma_rounded_at(neg, mant * pow2(k), 1, e, k as int);
    lemma_fundamental_div_mod_converse(mant * p, p, mant as int, 0);
}

/// Adding zero changes nothing.
pub proof fn lemma_plus_zero(x: Number)
    requires
        x.wf(),
    ensures
        Number::zero().plus(x) == x,
        x.plus(Number::zero()) == x,
{
    let e = Number::zero().common_exponent(x);
    lemma_mul_by_zero_is_zero(pow2((0 - e) as nat) as int);
    if x.is_zero() {
        lemma2_to64();
    } else {
        let k = (x.exp - e) as nat;
        lemma_pow2_pos(k);
        lemma_mul_strictly_positive(x.mant as int, pow2(k) as int);
        lemma_rounded_exact(x.neg, x.mant, k, e);
    }
}

/// The range of a sum: within a carry of the larger operand and, unless the sum is
/// zero, no smaller than the smallest unit of the operands. Operands of one sign do
/// not cancel.
pub proof fn lemma_plus_range(x: Number, y: Number)
    requires
        x.wf(),
        y.wf(),
        !x.is_zero(),
        !y.is_zero(),
    ensures
        ({
            let r = x.plus(y);
            let low = x.common_exponent(y);
            let high = x.exp + y.exp - low;
            &&& r.is_zero() ==> r == Number::zero() && x.neg != y.neg
            &&& !r.is_zero() ==> {
                &&& SIGNIFICAND_MIN <= r.mant < 2 * SIGNIFICAND_MIN
                &&& low - 52 <= r.exp <= high + 2
            }
            &&& x.neg == y.neg ==> r.neg == x.neg && high <= r.exp
        }),
{
    let low = x.common_exponent(y);
    let high = x.exp + y.exp - low;
    let gap = (high - low) as nat;
    let total = x.units(low) + y.units(low);
    let n = if total < 0 { (-total) as nat } else { total as nat };
    lemma2_to64();
    lemma2_to64_rest();
    lemma_pow2_pos(gap);
    lemma_mul_basics(x.mant as int);
    lemma_mul_basics(y.mant as int);
    let (h, p) = (SIGNIFICAND_MIN as int, pow2(gap) as int);
    let (big, small) = if x.exp >= y.exp {
        (x.mant as int, y.mant as int)
    } else {
        (y.mant as int, x.mant as int)
    };
    lemma_pow2_adds(54, gap);
    lemma_pow2_unfold(54);
    lemma_pow2_adds(52, gap);
    assert(h * p <= big * p && big * p + small < (4 * h) * p && big * p >= 0) by (nonlinear_arith)
        requires
            h <= big < 2 * h,
            h <= small < 2 * h,
            p >= 1,
            h > 0,
    ;
    lemma_mul_basics(pow2(54 + gap) as int);
    lemma_mul_basics(pow2(52 + gap) as int);
    if n > 0 {
        lemma_rounded_range(total < 0, n, 1, low, 0, 54 + gap);
        if x.neg == y.neg {
            lemma_rounded_range(total < 0, n, 1, low, 52 + gap, 54 + gap);
        }
    }
}

pub proof fn lemma_cube_ordered(x: nat, y: nat)
    requires
        x <= y,
    ensures
        cube(x) <= cube(y),
{
    assert(x * x <= y * y) by (nonlinear_arith)
        requires
            0 <= x <= y,
    ;
    assert((x * x) * x <= (y * y) * y) by (nonlinear_arith)
        requires
            0 <= x <= y,
            x * x <= y * y,
    ;
}

/// The integer part of a cube root is the only integer whose cube and the next one
/// enclose the radicand.
pub proof fn lemma_integer_cube_root(n: nat, c: nat)
    requires
        cube(c) <= n < cube(c + 1),
    ensures
        integer_cube_root(n) == c,
{
    let c1 = integer_cube_root(n);
    assert(cube(c1) <= n < cube(c1 + 1));
    if c1 < c {
        lemma_cube_ordered(c1 + 1, c);
    } else if c < c1 {
        lemma_cube_ordered(c + 1, c1);
    }
}

/// Every integer has an integer part of its cube root.
pub proof fn lemma_integer_cube_root_exists(n: nat) -> (c: nat)
    ensures
        cube(c) <= n < cube(c + 1),
    decreases n,
{
    assert(cube(0) == 0 && cube(1) == 1) by (nonlinear_arith);
    if n == 0 {
        0
    } else {
        let c = lemma_integer_cube_root_exists((n - 1) as nat);
        if cube(c + 1) <= n {
            assert(cube(c + 1) < cube(c + 2)) by (nonlinear_arith);
            c + 1
        } else {
            c
        }
    }
}

/// The encoding holds the sign in its first bit, the exponent, biased by 1075, in the next 11
/// bits, and the significand without its leading bit in the last 52. Zero is all zeros.
pub proof fn law_encoding_is_binary64(x: Number)
    requires
        x.wf(),
    ensures
        x.is_zero() ==> x.encoding() == 0,
        !x.is_zero() ==> {
            &&& x.encoding() / 0x8000_0000_0000_0000 == if x.neg {
                1int
            } else {
                0
            }
            &&& x.encoding() / 0x10_0000_0000_0000 % 2048 == x.exp + 1075
            &&& x.encoding() % 0x10_0000_0000_0000 == x.mant - 0x10_0000_0000_0000
        },
{
    if !x.is_zero() {
        let (e, m) = (x.exp + 1075, x.mant - 0x10_0000_0000_0000);
        let high = e + if x.neg {
            2048int
        } else {
            0
        };
        assert(x.encoding() == high * 0x10_0000_0000_0000 + m);
        lemma_fundamental_div_mod_converse(x.encoding(), 0x10_0000_0000_0000, high, m);
    }
}

} // verus!
