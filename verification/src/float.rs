//! Binary64 arithmetic in integers.
//!
//! A [`Float`] is zero, which has no sign here, or a normal number of the binary64
//! format. The operations are those of the format in the default rounding direction, on
//! the operands for which neither the operands nor the result leave the normal range.

use crate::number;
use crate::number::Number;
use crate::number::EXPONENT_MAX;
use crate::number::EXPONENT_MIN;
use crate::number::SIGNIFICAND_MIN;
use vstd::arithmetic::div_mod::*;
use vstd::arithmetic::mul::*;
use vstd::arithmetic::power2::*;
use vstd::prelude::*;

verus! {

/// The number `(-1)^neg * mant * 2^exp`.
#[derive(Clone, Copy, Debug)]
pub struct Float {
    neg: bool,
    mant: u64,
    exp: i32,
}

impl View for Float {
    type V = Number;

    closed spec fn view(&self) -> Number {
        Number { neg: self.neg, mant: self.mant as nat, exp: self.exp as int }
    }
}

/// `2^k`.
fn power_of_two(k: u32) -> (p: u128)
    requires
        k <= 126,
    ensures
        p == pow2(k as nat),
{
    let mut p: u128 = 1;
    let mut i: u32 = 0;
    proof {
        lemma2_to64();
    }
    while i < k
        invariant
            i <= k <= 126,
            p == pow2(i as nat),
            i == 0 ==> p == 1,
        decreases k - i,
    {
        proof {
            lemma_pow2_unfold((i + 1) as nat);
            lemma2_to64();
            lemma_pow2_adds(63, 63);
            lemma2_to64_rest();
            if i + 1 < 126 {
                lemma_pow2_strictly_increases((i + 1) as nat, 126);
            }
        }
        p = p * 2;
        i = i + 1;
    }
    p
}

/// Halving the quotient: what of `n / d` and its remainder is left at `n / (2 * d)`.
proof fn lemma_halve(n: nat, d: nat, q: nat)
    requires
        d > 0,
        q == n / d,
    ensures
        n / (2 * d) == q / 2,
        n % (2 * d) == d * (q % 2) + n % d,
{
    lemma_fundamental_div_mod(n as int, d as int);
    let (h, b, r) = (q as int / 2, q as int % 2, n as int % d as int);
    assert(n == h * (2 * d) + (d * b + r)) by (nonlinear_arith)
        requires
            n == d * q + r,
            q == 2 * h + b,
    ;
    assert(0 <= d * b + r < 2 * d) by (nonlinear_arith)
        requires
            0 <= r < d,
            0 <= b <= 1,
    ;
    lemma_fundamental_div_mod_converse(n as int, (2 * d) as int, h, d * b + r);
}

/// `(-1)^neg * (n / d) * 2^e` rounded, from the integer part `q` of `n / d` and
/// whether anything is left behind it.
fn round_quotient(
    neg: bool,
    q: u128,
    inexact: bool,
    e: i32,
    Ghost(n): Ghost<nat>,
    Ghost(d): Ghost<nat>,
) -> (r: Float)
    requires
        d > 0,
        q == n / d,
        inexact == (n % d != 0),
        inexact ==> q >= 2 * SIGNIFICAND_MIN,
        q < 0x8000_0000_0000_0000_0000_0000_0000_0000,
        EXPONENT_MIN + 52 <= e <= EXPONENT_MAX - 76,
    ensures
        r@ == number::rounded(neg, n, d, e as int),
        r@.wf(),
{
    let ghost q0 = q as nat;
    let ghost e0 = e as int;
    let ghost mut k: nat = 0;
    let mut q: u128 = q;
    let mut e: i32 = e;
    proof {
        lemma2_to64();
        lemma2_to64_rest();
        lemma_pow2_adds(63, 64);
        lemma_mul_basics(d as int);
        lemma_fundamental_div_mod(n as int, d as int);
    }
    if q >= 2 * SIGNIFICAND_MIN as u128 {
        let mut inexact: bool = inexact;
        while q >= 4 * SIGNIFICAND_MIN as u128
            invariant
                d > 0,
                q >= 2 * SIGNIFICAND_MIN,
                q == n / (d * pow2(k)),
                inexact == (n % (d * pow2(k)) != 0),
                k <= 74,
                q < pow2((127 - k) as nat),
                e == e0 + k,
                EXPONENT_MIN + 52 <= e0 <= EXPONENT_MAX - 76,
            decreases q,
        {
            proof {
                lemma2_to64_rest();
                lemma_pow2_pos(k);
                lemma_mul_strictly_positive(d as int, pow2(k) as int);
                lemma_halve(n, d * pow2(k), q as nat);
                lemma_pow2_unfold(k + 1);
                let p = pow2(k) as int;
                assert(2 * (d * p) == d * (2 * p)) by (nonlinear_arith);
                lemma_pow2_unfold((127 - k) as nat);
                if k == 74 {
                    assert(pow2((127 - k) as nat) == 2 * SIGNIFICAND_MIN);
                }
                let b = (q % 2) as int;
                assert((d * p) * b != 0 <==> b != 0) by (nonlinear_arith)
                    requires
                        d * p > 0,
                        0 <= b <= 1,
                ;
                lemma_mul_nonnegative((d * p) as int, b);
            }
            inexact = inexact || q % 2 == 1;
            q = q / 2;
            e = e + 1;
            proof {
                k = k + 1;
            }
        }
        let half: u64 = (q / 2) as u64;
        let up: bool = q % 2 == 1 && (inexact || half % 2 == 1);
        let mant: u64 = if up {
            half + 1
        } else {
            half
        };
        proof {
            let dk = d * pow2(k);
            lemma_pow2_pos(k);
            lemma_mul_strictly_positive(d as int, pow2(k) as int);
            lemma_halve(n, dk, q as nat);
            lemma_pow2_unfold(k + 1);
            let p = pow2(k) as int;
            assert(2 * (d * p) == d * (2 * p)) by (nonlinear_arith);
            let s = k + 1;
            assert(number::scaled_up(d, s as int) == 2 * dk);
            let (r, b, h) = (n as int % dk as int, (q % 2) as int, SIGNIFICAND_MIN as int);
            lemma_fundamental_div_mod(n as int, dk as int);
            assert((2 * dk) * h <= n && n < (2 * dk) * (2 * h)) by (nonlinear_arith)
                requires
                    n == dk * q + r,
                    0 <= r < dk,
                    2 * h <= q < 4 * h,
            {
                assert(dk * (2 * h) <= dk * q);
                assert(dk * (q + 1) <= dk * (4 * h));
            }
            assert(number::has_53_bits(n, d, s as int));
            number::lemma_rounded_at(neg, n, d, e0, s as int);
            if b == 0 {
                assert(dk * b == 0) by (nonlinear_arith)
                    requires
                        b == 0,
                ;
            } else {
                assert(dk * b == dk) by (nonlinear_arith)
                    requires
                        b == 1,
                ;
            }
        }
        if mant == 2 * SIGNIFICAND_MIN {
            Float { neg, mant: SIGNIFICAND_MIN, exp: e + 2 }
        } else {
            Float { neg, mant, exp: e + 1 }
        }
    } else if q == 0 {
        Float { neg: false, mant: 0, exp: 0 }
    } else {
        proof {
            lemma_mul_basics(q as int);
        }
        while q < SIGNIFICAND_MIN as u128
            invariant
                q0 >= 1,
                q < 2 * SIGNIFICAND_MIN,
                q == q0 * pow2(k),
                k <= 52,
                e == e0 - k,
                EXPONENT_MIN + 52 <= e0 <= EXPONENT_MAX - 76,
            decreases 2 * SIGNIFICAND_MIN - q,
        {
            proof {
                lemma2_to64_rest();
                lemma_pow2_unfold(k + 1);
                let p = pow2(k) as int;
                lemma_pow2_pos(k);
                assert(q0 * (2 * p) == 2 * (q0 * p)) by (nonlinear_arith);
                assert(p <= q0 * p) by (nonlinear_arith)
                    requires
                        q0 >= 1,
                        p > 0,
                ;
                if k == 52 {
                    assert(p == SIGNIFICAND_MIN);
                }
            }
            q = q * 2;
            e = e - 1;
            proof {
                k = k + 1;
            }
        }
        proof {
            let p = pow2(k) as int;
            let h = SIGNIFICAND_MIN as int;
            assert(n == d * q0);
            assert(n * p == q * d) by (nonlinear_arith)
                requires
                    n == d * q0,
                    q == q0 * p,
            ;
            let s = -(k as int);
            lemma_mul_basics(n as int);
            assert(number::scaled_up(n, -s) == q * d);
            assert(d * h <= q * d && q * d < d * (2 * h)) by (nonlinear_arith)
                requires
                    h <= q < 2 * h,
                    d > 0,
            ;
            lemma_mul_strictly_positive(d as int, q0 as int);
            assert(number::has_53_bits(n, d, s));
            number::lemma_rounded_at(neg, n, d, e0, s);
            lemma_fundamental_div_mod_converse(q * d, d as int, q as int, 0);
        }
        Float { neg, mant: q as u64, exp: e }
    }
}

/// Numbers of which any two can be combined by one operation without leaving the
/// normal range.
pub open spec fn is_moderate(x: Number) -> bool {
    &&& x.wf()
    &&& !x.is_zero() ==> -500 <= x.exp <= 400
}

/// Whether `x` is zero or its exponent lies in the given range.
pub open spec fn exponent_within(x: Number, low: int, high: int) -> bool {
    x.is_zero() || low <= x.exp <= high
}

impl Float {
    pub fn zero() -> (r: Float)
        ensures
            r@ == Number::zero(),
    {
        Float { neg: false, mant: 0, exp: 0 }
    }

    /// The number nearest to `n`.
    pub fn from_integer(n: u64) -> (r: Float)
        ensures
            r@ == Number::integer(n as nat),
            r@.wf(),
            !r@.neg,
            r@.is_zero() <==> n == 0,
            exponent_within(r@, -52, 12),
            n < 0x4000_0000 ==> exponent_within(r@, -52, -22),
            0x2000_0000 <= n < 0x4000_0000 ==> exponent_within(r@, -23, -22),
            0x400 <= n < 0x800 ==> exponent_within(r@, -42, -41),
            n < 0x10 ==> exponent_within(r@, -52, -48),
    {
        proof {
            lemma2_to64();
            if n > 0 {
                number::lemma_rounded_range(false, n as nat, 1, 0, 0, 64);
                if n < 0x4000_0000 {
                    number::lemma_rounded_range(false, n as nat, 1, 0, 0, 30);
                    if 0x2000_0000 <= n {
                        number::lemma_rounded_range(false, n as nat, 1, 0, 29, 30);
                    }
                }
                if 0x400 <= n < 0x800 {
                    number::lemma_rounded_range(false, n as nat, 1, 0, 10, 11);
                }
                if n < 0x10 {
                    number::lemma_rounded_range(false, n as nat, 1, 0, 0, 4);
                }
            }
        }
        round_quotient(false, n as u128, false, 0, Ghost(n as nat), Ghost(1))
    }

    /// The number nearest to `n / d`.
    pub fn from_ratio(n: u64, d: u64) -> (r: Float)
        requires
            0 < n < 0x10,
            0 < d < 0x10,
        ensures
            r@ == Number::ratio(n as nat, d as nat),
            r@.wf(),
            !r@.neg,
            !r@.is_zero(),
            exponent_within(r@, -56, -48),
    {
        let a: u128 = n as u128 * 0x10_0000_0000_0000_0000_0000_0000;
        let q: u128 = a / d as u128;
        let inexact: bool = a % d as u128 != 0;
        proof {
            lemma2_to64();
            lemma_pow2_adds(64, 32);
            lemma_pow2_adds(96, 4);
            lemma_pow2_adds(100, 4);
            let (x, y) = (n as int, d as int);
            let p = 0x10_0000_0000_0000_0000_0000_0000int;
            assert((x * p) * y == x * y * p) by (nonlinear_arith);
            number::lemma_rounded_same_value(false, a as nat, d as nat, -100, n as nat, d as nat, 100);
            assert(d * pow2(96) == d * 0x1_0000_0000_0000_0000_0000_0000);
            assert(d * pow2(104) == d * 0x100_0000_0000_0000_0000_0000_0000);
            number::lemma_rounded_range(false, a as nat, d as nat, -100, 96, 104);
            lemma_fundamental_div_mod(a as int, d as int);
            let rem = a as int % d as int;
            assert(q >= 2 * SIGNIFICAND_MIN) by (nonlinear_arith)
                requires
                    a == d * q + rem,
                    rem < d,
                    d < 0x10,
                    a >= 0x10_0000_0000_0000_0000_0000_0000,
            ;
        }
        round_quotient(false, q, inexact, -100, Ghost(a as nat), Ghost(d as nat))
    }

    /// The product.
    pub fn times(self, other: Float) -> (r: Float)
        requires
            is_moderate(self@),
            is_moderate(other@),
        ensures
            r@ == self@.times(other@),
            r@.wf(),
            r@.is_zero() <==> self@.is_zero() || other@.is_zero(),
            !r@.is_zero() ==> r@.neg == (self@.neg != other@.neg) && self@.exp + other@.exp + 52
                <= r@.exp <= self@.exp + other@.exp + 54,
    {
        let a: u128 = self.mant as u128;
        let b: u128 = other.mant as u128;
        proof {
            let (x, y, h) = (self.mant as int, other.mant as int, SIGNIFICAND_MIN as int);
            assert(0 <= x * y < 0x40_0000_0000_0000 * h) by (nonlinear_arith)
                requires
                    0 <= x < 2 * h,
                    0 <= y < 2 * h,
                    h == 0x10_0000_0000_0000,
            ;
            if x > 0 && y > 0 {
                assert(h * h <= x * y && x * y < 4 * (h * h)) by (nonlinear_arith)
                    requires
                        h <= x < 2 * h,
                        h <= y < 2 * h,
                ;
                lemma2_to64();
                lemma2_to64_rest();
                lemma_pow2_adds(52, 52);
                lemma_pow2_adds(104, 2);
                number::lemma_rounded_range(
                    self.neg != other.neg,
                    (x * y) as nat,
                    1,
                    self.exp + other.exp,
                    104,
                    106,
                );
            } else {
                lemma_mul_by_zero_is_zero(x);
                lemma_mul_by_zero_is_zero(y);
            }
        }
        let product: u128 = a * b;
        round_quotient(
            self.neg != other.neg,
            product,
            false,
            self.exp + other.exp,
            Ghost(product as nat),
            Ghost(1),
        )
    }

    /// The quotient.
    pub fn over(self, other: Float) -> (r: Float)
        requires
            is_moderate(self@),
            is_moderate(other@),
            !other@.is_zero(),
        ensures
            r@ == self@.over(other@),
            r@.wf(),
            r@.is_zero() <==> self@.is_zero(),
            !r@.is_zero() ==> r@.neg == (self@.neg != other@.neg) && self@.exp - other@.exp - 53
                <= r@.exp <= self@.exp - other@.exp - 51,
    {
        let a: u128 = self.mant as u128 * 0x1_0000_0000_0000_0000;
        let b: u128 = other.mant as u128;
        let q: u128 = a / b;
        let inexact: bool = a % b != 0;
        proof {
            lemma2_to64();
            lemma2_to64_rest();
            let (x, y, h) = (self.mant as int, other.mant as int, SIGNIFICAND_MIN as int);
            let neg = self.neg != other.neg;
            let e = self.exp - other.exp;
            lemma_fundamental_div_mod(a as int, b as int);
            if x == 0 {
                lemma_basic_div(0, b as int);
            } else {
                lemma_pow2_unfold(65);
                assert(x * 0x1_0000_0000_0000_0000 * y == x * y * 0x1_0000_0000_0000_0000)
                    by (nonlinear_arith);
                number::lemma_rounded_same_value(
                    neg,
                    a as nat,
                    b as nat,
                    e - 64,
                    x as nat,
                    y as nat,
                    64,
                );
                assert(b * pow2(63) == b * 0x8000_0000_0000_0000);
                assert(b * pow2(65) == b * 0x2_0000_0000_0000_0000);
                number::lemma_rounded_range(neg, a as nat, b as nat, e - 64, 63, 65);
                let rem = a as int % b as int;
                assert(q >= 2 * h) by (nonlinear_arith)
                    requires
                        a == b * q + rem,
                        rem < b,
                        a >= h * 0x1_0000_0000_0000_0000,
                        b < 2 * h,
                        h == 0x10_0000_0000_0000,
                ;
            }
        }
        round_quotient(
            self.neg != other.neg,
            q,
            inexact,
            self.exp - other.exp - 64,
            Ghost(a as nat),
            Ghost(b as nat),
        )
    }
}

/// The sum of two numbers that are not zero, the first with the larger exponent.
fn sum_aligned(hi: Float, lo: Float) -> (r: Float)
    requires
        is_moderate(hi@),
        is_moderate(lo@),
        !hi@.is_zero(),
        !lo@.is_zero(),
        hi@.exp >= lo@.exp,
    ensures
        r@ == hi@.plus(lo@),
        r@.wf(),
{
    let gap: u32 = (hi.exp - lo.exp) as u32;
    proof {
        lemma2_to64();
        lemma2_to64_rest();
        lemma_mul_basics(lo.mant as int);
    }
    let ghost h = SIGNIFICAND_MIN as int;
    if gap <= 64 {
        let p: u128 = power_of_two(gap);
        proof {
            if gap < 64 {
                lemma_pow2_strictly_increases(gap as nat, 64);
            }
            lemma_pow2_pos(gap as nat);
            let m = hi.mant as int;
            assert(h <= m * p && m * p <= (2 * h) * 0x1_0000_0000_0000_0000) by (nonlinear_arith)
                requires
                    h <= m < 2 * h,
                    1 <= p <= 0x1_0000_0000_0000_0000,
                    h > 0,
            ;
        }
        let x: u128 = hi.mant as u128 * p;
        let y: u128 = lo.mant as u128;
        if hi.neg == lo.neg {
            round_quotient(hi.neg, x + y, false, lo.exp, Ghost((x + y) as nat), Ghost(1))
        } else if x >= y {
            round_quotient(hi.neg, x - y, false, lo.exp, Ghost((x - y) as nat), Ghost(1))
        } else {
            round_quotient(lo.neg, y - x, false, lo.exp, Ghost((y - x) as nat), Ghost(1))
        }
    } else {
        let shift: u32 = gap - 64;
        let low: u64;
        let left: bool;
        let ghost p = pow2(shift as nat) as int;
        let ghost rem: int;
        proof {
            lemma_pow2_pos(shift as nat);
            lemma_pow2_adds(64, shift as nat);
        }
        if shift <= 64 {
            let p1: u128 = power_of_two(shift);
            proof {
                lemma_fundamental_div_mod(lo.mant as int, p1 as int);
                rem = lo.mant as int % p1 as int;
                lemma_div_nonincreasing(lo.mant as int, p1 as int);
                lemma_div_pos_is_pos(lo.mant as int, p1 as int);
            }
            low = (lo.mant as u128 / p1) as u64;
            left = lo.mant as u128 % p1 != 0;
        } else {
            proof {
                lemma_pow2_strictly_increases(64, shift as nat);
                rem = lo.mant as int;
                lemma_mul_by_zero_is_zero(p);
            }
            low = 0;
            left = true;
        }
        let x: u128 = hi.mant as u128 * 0x1_0000_0000_0000_0000;
        let ghost big = hi.mant * pow2(gap as nat);
        proof {
            let m = hi.mant as int;
            assert(lo.mant == p * low + rem && 0 <= rem < p);
            assert(big == x * p) by (nonlinear_arith)
                requires
                    big == m * (0x1_0000_0000_0000_0000 * p),
                    x == m * 0x1_0000_0000_0000_0000,
            ;
            assert(x <= x * p) by (nonlinear_arith)
                requires
                    p >= 1,
                    x >= 0,
            ;
        }
        let same: bool = hi.neg == lo.neg;
        let q: u128 = if same {
            x + low as u128
        } else if left {
            x - low as u128 - 1
        } else {
            x - low as u128
        };
        let ghost n: nat = if same {
            (big + lo.mant) as nat
        } else {
            (big - lo.mant) as nat
        };
        proof {
            let (r, low) = (rem, low as int);
            if same {
                assert(n == (x + low) * p + r) by (nonlinear_arith)
                    requires
                        n == x * p + (p * low + r),
                ;
                lemma_fundamental_div_mod_converse(n as int, p, q as int, r);
            } else if left {
                assert(n == (x - low - 1) * p + (p - r)) by (nonlinear_arith)
                    requires
                        n == x * p - (p * low + r),
                ;
                lemma_fundamental_div_mod_converse(n as int, p, q as int, p - r);
            } else {
                assert(n == (x - low) * p) by (nonlinear_arith)
                    requires
                        n == x * p - (p * low + r),
                        r == 0,
                ;
                lemma_fundamental_div_mod_converse(n as int, p, q as int, 0);
            }
            lemma_mul_basics(n as int);
            number::lemma_rounded_same_value(
                hi.neg,
                n,
                1,
                lo.exp as int,
                n,
                p as nat,
                shift as nat,
            );
        }
        round_quotient(hi.neg, q, left, hi.exp - 64, Ghost(n), Ghost(p as nat))
    }
}

impl Float {
    /// The sum.
    pub fn plus(self, other: Float) -> (r: Float)
        requires
            is_moderate(self@),
            is_moderate(other@),
        ensures
            r@ == self@.plus(other@),
            r@.wf(),
            self@.is_zero() ==> r == other,
            other@.is_zero() ==> r == self,
            !self@.is_zero() && !other@.is_zero() ==> ({
                let low = self@.common_exponent(other@);
                let high = self@.exp + other@.exp - low;
                &&& exponent_within(r@, low - 52, high + 2)
                &&& self@.neg == other@.neg ==> !r@.is_zero() && r@.neg == self@.neg && high
                    <= r@.exp
            }),
    {
        proof {
            number::lemma_plus_zero(self@);
            number::lemma_plus_zero(other@);
            if !self@.is_zero() && !other@.is_zero() {
                number::lemma_plus_range(self@, other@);
            }
        }
        if self.mant == 0 {
            other
        } else if other.mant == 0 {
            self
        } else if self.exp >= other.exp {
            sum_aligned(self, other)
        } else {
            sum_aligned(other, self)
        }
    }

    fn negated(self) -> (r: Float)
        ensures
            r@ == self@.negated(),
    {
        if self.mant == 0 {
            self
        } else {
            Float { neg: !self.neg, mant: self.mant, exp: self.exp }
        }
    }

    /// The difference.
    pub fn minus(self, other: Float) -> (r: Float)
        requires
            is_moderate(self@),
            is_moderate(other@),
        ensures
            r@ == self@.minus(other@),
            r@.wf(),
            self@.is_zero() ==> r@ == other@.negated(),
            other@.is_zero() ==> r == self,
            !self@.is_zero() && !other@.is_zero() ==> ({
                let low = self@.common_exponent(other@);
                let high = self@.exp + other@.exp - low;
                exponent_within(r@, low - 52, high + 2)
            }),
            !self@.less_than(other@) ==> !r@.neg,
    {
        proof {
            let p = pow2((other@.exp - self@.common_exponent(other@)) as nat) as int;
            lemma_mul_by_zero_is_zero(p);
        }
        self.plus(other.negated())
    }

    /// Whether the number is less than another.
    pub fn less_than(self, other: Float) -> (r: bool)
        requires
            self@.wf(),
            other@.wf(),
        ensures
            r == self@.less_than(other@),
    {
        let ghost e = self@.common_exponent(other@);
        proof {
            lemma2_to64();
            lemma_mul_basics(self.mant as int);
            lemma_mul_basics(other.mant as int);
            lemma_pow2_pos((self.exp - e) as nat);
            lemma_pow2_pos((other.exp - e) as nat);
            let (p, p1) = (pow2((self.exp - e) as nat) as int, pow2((other.exp - e) as nat) as int);
            let (m, m1) = (self.mant as int, other.mant as int);
            assert(m * p >= m && (m > 0 <==> m * p > 0)) by (nonlinear_arith)
                requires
                    m >= 0,
                    p >= 1,
            ;
            assert(m1 * p1 >= m1 && (m1 > 0 <==> m1 * p1 > 0)) by (nonlinear_arith)
                requires
                    m1 >= 0,
                    p1 >= 1,
            ;
            let h = SIGNIFICAND_MIN as int;
            if self.exp > other.exp {
                lemma_pow2_unfold((self.exp - e) as nat);
                lemma_pow2_pos((self.exp - e - 1) as nat);
                assert(m >= h ==> m * p >= 2 * h) by (nonlinear_arith)
                    requires
                        p >= 2,
                        h > 0,
                ;
            }
            if self.exp < other.exp {
                lemma_pow2_unfold((other.exp - e) as nat);
                lemma_pow2_pos((other.exp - e - 1) as nat);
                assert(m1 >= h ==> m1 * p1 >= 2 * h) by (nonlinear_arith)
                    requires
                        p1 >= 2,
                        h > 0,
                ;
            }
        }
        if self.mant == 0 {
            other.mant != 0 && !other.neg
        } else if other.mant == 0 {
            self.neg
        } else if self.neg != other.neg {
            self.neg
        } else {
            let closer: bool = self.exp < other.exp || (self.exp == other.exp && self.mant
                < other.mant);
            let farther: bool = self.exp > other.exp || (self.exp == other.exp && self.mant
                > other.mant);
            if self.neg {
                farther
            } else {
                closer
            }
        }
    }

    /// The integer part, clamped to what a `usize` can hold.
    pub fn to_usize(self) -> (r: usize)
        requires
            self@.wf(),
        ensures
            r == self@.clamped(),
    {
        proof {
            lemma2_to64();
            lemma2_to64_rest();
        }
        if self.neg || self.mant == 0 {
            proof {
                if self.exp >= 0 {
                    lemma_mul_by_zero_is_zero(pow2(self.exp as nat) as int);
                } else {
                    lemma_pow2_pos((-self.exp) as nat);
                    lemma_basic_div(0, pow2((-self.exp) as nat) as int);
                }
            }
            0
        } else if self.exp >= 64 {
            proof {
                lemma_pow2_pos(self.exp as nat);
                if self.exp > 64 {
                    lemma_pow2_strictly_increases(64, self.exp as nat);
                }
                let (m, p) = (self.mant as int, pow2(self.exp as nat) as int);
                assert(m * p >= p) by (nonlinear_arith)
                    requires
                        m >= 1,
                        p > 0,
                ;
            }
            usize::MAX
        } else if self.exp <= -64 {
            proof {
                if self.exp < -64 {
                    lemma_pow2_strictly_increases(64, (-self.exp) as nat);
                }
                lemma_basic_div(self.mant as int, pow2((-self.exp) as nat) as int);
            }
            0
        } else {
            let whole: u128 = if self.exp >= 0 {
                let p: u128 = power_of_two(self.exp as u32);
                proof {
                    if self.exp < 63 {
                        lemma_pow2_strictly_increases(self.exp as nat, 63);
                    }
                    let m = self.mant as int;
                    assert(0 <= m * p <= 0x20_0000_0000_0000 * 0x8000_0000_0000_0000)
                        by (nonlinear_arith)
                        requires
                            0 <= m < 0x20_0000_0000_0000,
                            0 <= p <= 0x8000_0000_0000_0000,
                    ;
                }
                self.mant as u128 * p
            } else {
                let p: u128 = power_of_two((-self.exp) as u32);
                proof {
                    lemma_pow2_pos((-self.exp) as nat);
                }
                self.mant as u128 / p
            };
            if whole > usize::MAX as u128 {
                usize::MAX
            } else {
                whole as usize
            }
        }
    }

    /// The encoding in the binary64 interchange format.
    pub fn to_bits(self) -> (r: u64)
        requires
            self@.wf(),
        ensures
            r == self@.encoding(),
    {
        if self.mant == 0 {
            0
        } else {
            let sign: u64 = if self.neg {
                0x8000_0000_0000_0000
            } else {
                0
            };
            sign + (self.exp + 1075) as u64 * SIGNIFICAND_MIN + (self.mant - SIGNIFICAND_MIN)
        }
    }
}

/// The integer part of the cube root of `n`.
fn short_cube_root(n: u128) -> (c: u128)
    requires
        n < 0x100_0000_0000_0000_0000,
    ensures
        number::cube(c as nat) <= n < number::cube((c + 1) as nat),
        c < 0x100_0000,
{
    let mut low: u128 = 0;
    let mut high: u128 = 0x100_0000;
    assert(number::cube(0) == 0 && number::cube(0x100_0000) == 0x100_0000_0000_0000_0000)
        by (nonlinear_arith);
    while high - low > 1
        invariant
            low < high <= 0x100_0000,
            number::cube(low as nat) <= n < number::cube(high as nat),
        decreases high - low,
    {
        let mid: u128 = low + (high - low) / 2;
        assert(0 <= mid * mid <= 0x100_0000 * 0x100_0000) by (nonlinear_arith)
            requires
                0 <= mid <= 0x100_0000,
        ;
        let square: u128 = mid * mid;
        assert(0 <= square * mid <= 0x100_0000 * 0x100_0000 * 0x100_0000) by (nonlinear_arith)
            requires
                0 <= mid <= 0x100_0000,
                0 <= square <= 0x100_0000 * 0x100_0000,
        ;
        if square * mid <= n {
            low = mid;
        } else {
            high = mid;
        }
    }
    low
}

/// The step from `c` to the next binary digit of the root, either digit.
proof fn lemma_cube_root_digit(c: int, rem: int)
    requires
        c >= 0,
        0 <= rem < 3 * (c * c) + 3 * c + 1,
    ensures
        (2 * c) * (2 * c) * (2 * c) == 8 * (c * c * c),
        (2 * c + 1) * (2 * c + 1) * (2 * c + 1) == 8 * (c * c * c) + (12 * (c * c) + 6 * c + 1),
        3 * ((2 * c) * (2 * c)) + 3 * (2 * c) + 1 == 12 * (c * c) + 6 * c + 1,
        8 * rem - (12 * (c * c) + 6 * c + 1) < 3 * ((2 * c + 1) * (2 * c + 1)) + 3 * (2 * c + 1) + 1,
{
    let s = c * c;
    assert((2 * c) * (2 * c) == 4 * s) by (nonlinear_arith)
        requires
            s == c * c,
    ;
    assert((4 * s) * (2 * c) == 8 * (s * c)) by (nonlinear_arith);
    assert((2 * c + 1) * (2 * c + 1) == 4 * s + 4 * c + 1) by (nonlinear_arith)
        requires
            s == c * c,
    ;
    assert((4 * s + 4 * c + 1) * (2 * c + 1) == 8 * (s * c) + 12 * s + 6 * c + 1)
        by (nonlinear_arith)
        requires
            s == c * c,
    ;
}

proof fn lemma_next_cube(c: nat)
    ensures
        number::cube(c + 1) == number::cube(c) + (3 * (c * c) + 3 * c + 1),
{
    assert((c + 1) * (c + 1) * (c + 1) == c * c * c + (3 * (c * c) + 3 * c + 1))
        by (nonlinear_arith);
}

impl Float {
    /// The cube root of a number that is not negative.
    pub fn cube_root(self) -> (r: Float)
        requires
            is_moderate(self@),
            !self@.neg,
        ensures
            r@ == self@.cube_root(),
            r@.wf(),
            !r@.neg,
            r@.is_zero() <==> self@.is_zero(),
            !r@.is_zero() ==> self@.exp - 109 <= 3 * r@.exp - 3 <= self@.exp - 104,
    {
        if self.mant == 0 {
            return self;
        }
        let turn: u32 = ((self.exp + 1093) % 3) as u32;
        let shift: u32 = 107 + turn;
        let p: u128 = power_of_two(17 + turn);
        let ghost n = self.mant as nat * pow2(shift as nat);
        proof {
            lemma2_to64();
            lemma_pow2_adds(17 + turn as nat, 90);
            let m = self.mant as int;
            assert(0x10_0000_0000_0000 * 0x20000 <= m * p && m * p < 0x20_0000_0000_0000 * 0x80000)
                by (nonlinear_arith)
                requires
                    0x10_0000_0000_0000 <= m < 0x20_0000_0000_0000,
                    0x20000 <= p <= 0x80000,
            ;
        }
        let head: u128 = self.mant as u128 * p;
        let mut c: u128 = short_cube_root(head);
        let mut rem: u128 = {
            proof {
                lemma_next_cube(c as nat);
                assert(0 <= c * c <= 0x100_0000 * 0x100_0000) by (nonlinear_arith)
                    requires
                        0 <= c <= 0x100_0000,
                ;
                if c < 0x80_0000 {
                    number::lemma_cube_ordered((c + 1) as nat, 0x80_0000);
                    assert(number::cube(0x80_0000) == 0x20_0000_0000_0000_0000)
                        by (nonlinear_arith);
                }
            }
            head - c * c * c
        };
        let mut i: u32 = 0;
        proof {
            lemma_mul_basics(head as int);
        }
        while i < 30
            invariant
                i <= 30,
                pow2(23 + i as nat) <= c < pow2(24 + i as nat),
                number::cube(c as nat) + rem == head * pow2(3 * i as nat),
                rem < 3 * (c * c) + 3 * c + 1,
            decreases 30 - i,
        {
            proof {
                lemma2_to64();
                lemma2_to64_rest();
                lemma_pow2_unfold(24 + i as nat);
                lemma_pow2_unfold(25 + i as nat);
                if 24 + i < 53 {
                    lemma_pow2_strictly_increases(24 + i as nat, 53);
                }
                assert(0 <= c * c <= 0x20_0000_0000_0000 * 0x20_0000_0000_0000)
                    by (nonlinear_arith)
                    requires
                        0 <= c <= 0x20_0000_0000_0000,
                ;
                lemma_pow2_adds(3 * i as nat, 3);
                let q = pow2(3 * i as nat) as int;
                assert(head * (q * 8) == 8 * (head * q)) by (nonlinear_arith);
                lemma_cube_root_digit(c as int, rem as int);
            }
            let step: u128 = 12 * (c * c) + 6 * c + 1;
            rem = 8 * rem;
            if rem >= step {
                c = 2 * c + 1;
                rem = rem - step;
            } else {
                c = 2 * c;
            }
            i = i + 1;
        }
        let e: i32 = (self.exp - shift as i32 + 1500) / 3 - 500;
        let ghost rest: nat = if rem == 0 {
            0
        } else {
            1
        };
        proof {
            lemma2_to64();
            lemma2_to64_rest();
            lemma_pow2_unfold(54);
            let (m, pp, t) = (self.mant as int, p as int, pow2(90) as int);
            assert(m * (pp * t) == (m * pp) * t) by (nonlinear_arith);
            assert(n == head * pow2(90));
            lemma_next_cube(c as nat);
            number::lemma_integer_cube_root(n, c as nat);
            assert(self@.cube_root_shift() == shift);
            assert((self.exp - shift) / 3 == e);
            number::lemma_rounded_range(false, 2 * c as nat + rest, 2, e as int, 53, 54);
        }
        round_quotient(false, c, rem != 0, e, Ghost(2 * c as nat + rest), Ghost(2))
    }
}

} // verus!
