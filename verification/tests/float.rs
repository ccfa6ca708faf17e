//! The arithmetic agrees with that of the machine, bit for bit.

use cubic::float::Float;

/// A linear congruential generator.
struct Random(u64);

impl Random {
    fn next(&mut self) -> u64 {
        self.0 = self.0.wrapping_mul(6364136223846793005).wrapping_add(1442695040888963407);
        let x = self.0;
        (x ^ (x >> 29)).wrapping_mul(0xbf58476d1ce4e5b9) ^ (x >> 33)
    }

    /// An integer of a random length.
    fn integer(&mut self) -> u64 {
        let bits = self.next() % 64;
        self.next() >> bits
    }
}

/// A number and the same number in machine arithmetic.
#[derive(Clone, Copy)]
struct Pair {
    x: Float,
    y: f64,
}

fn integer(n: u64) -> Pair {
    Pair { x: Float::from_integer(n), y: n as f64 }
}

fn check(p: Pair) -> Pair {
    assert_eq!(p.x.to_bits(), (p.y + 0.0).to_bits(), "{:?} is not {:e}", p.x, p.y);
    p
}

fn times(a: Pair, b: Pair) -> Pair {
    check(Pair { x: a.x.times(b.x), y: a.y * b.y })
}

fn over(a: Pair, b: Pair) -> Pair {
    check(Pair { x: a.x.over(b.x), y: a.y / b.y })
}

fn plus(a: Pair, b: Pair) -> Pair {
    check(Pair { x: a.x.plus(b.x), y: a.y + b.y })
}

fn minus(a: Pair, b: Pair) -> Pair {
    check(Pair { x: a.x.minus(b.x), y: a.y - b.y })
}

/// Random numbers of both signs and of many sizes.
fn some(r: &mut Random) -> Pair {
    let q = over(integer(r.integer()), integer(r.integer() + 1));
    let q = match r.next() % 3 {
        0 => q,
        1 => over(q, integer(r.integer() + 1)),
        _ => times(q, integer(r.integer() + 1)),
    };
    if r.next() % 2 == 0 {
        q
    } else {
        minus(integer(0), q)
    }
}

#[test]
fn integers_round_to_even() {
    for n in [0, 1, 2, 3, 1452, 14520, 1 << 52, (1 << 53) - 1, 1 << 53, (1 << 53) + 1, (1 << 53) + 2, (1 << 53) + 3, u64::MAX - 1024, u64::MAX - 1023, u64::MAX] {
        check(integer(n));
    }
    assert_eq!(Float::from_integer((1 << 53) + 1).to_usize(), 1 << 53);
    assert_eq!(Float::from_integer((1 << 53) + 3).to_usize(), (1 << 53) + 4);
    let mut r = Random(1);
    for _ in 0..2000 {
        check(integer(r.integer()));
    }
}

#[test]
fn ratios_are_the_decimal_constants() {
    assert_eq!(Float::from_ratio(7, 10).to_bits(), (0.7f64).to_bits());
    assert_eq!(Float::from_ratio(4, 10).to_bits(), (0.4f64).to_bits());
    for n in 1..16u64 {
        for d in 1..16u64 {
            assert_eq!(Float::from_ratio(n, d).to_bits(), (n as f64 / d as f64).to_bits());
        }
    }
}

#[test]
fn operations_agree_with_the_machine() {
    let mut r = Random(7);
    for _ in 0..3000 {
        let a = some(&mut r);
        let b = some(&mut r);
        times(a, b);
        plus(a, b);
        minus(a, b);
        if b.y != 0.0 {
            over(a, b);
        }
        assert_eq!(a.x.less_than(b.x), a.y < b.y);
        assert_eq!(b.x.less_than(a.x), b.y < a.y);
        assert!(!a.x.less_than(a.x));
        assert_eq!(a.x.to_usize(), a.y as usize);
    }
}

#[test]
fn sums_of_near_and_far_numbers() {
    let mut r = Random(11);
    let one = integer(1);
    let tiny = over(one, times(integer(1 << 60), integer(1 << 60)));
    for _ in 0..500 {
        let a = some(&mut r);
        // Cancellation in part and in full.
        minus(a, a);
        let near = times(a, over(integer((1 << 52) + r.next() % 4), integer(1 << 52)));
        minus(a, near);
        minus(near, a);
        // Operands far apart.
        let far = times(some(&mut r), tiny);
        plus(a, far);
        minus(a, far);
        minus(far, a);
    }
    // A power of two, and a little less.
    minus(one, tiny);
    plus(one, tiny);
    minus(one, over(one, integer(1 << 53)));
    minus(one, over(one, integer(1 << 54)));
    plus(one, over(one, integer(1 << 53)));
}

#[test]
fn cube_roots_agree_with_libm() {
    let check_root = |a: Pair| {
        let root = a.x.cube_root();
        assert_eq!(root.to_bits(), libm::cbrt(a.y).to_bits(), "cube root of {:e}", a.y);
    };
    for n in [0, 1, 2, 7, 8, 9, 26, 27, 28, 64, 1000, 1 << 51, 1 << 63, u64::MAX] {
        check_root(integer(n));
        check_root(over(integer(n), integer(8)));
        check_root(over(integer(n), integer(1000)));
    }
    assert_eq!(integer(27).x.cube_root().to_usize(), 3);
    let mut r = Random(3);
    for _ in 0..3000 {
        let a = some(&mut r);
        if a.y >= 0.0 {
            check_root(a);
        }
    }
}

#[test]
fn truncation_clamps() {
    assert_eq!(over(integer(7), integer(2)).x.to_usize(), 3);
    assert_eq!(minus(integer(1), integer(3)).x.to_usize(), 0);
    assert_eq!(integer(u64::MAX).x.to_usize(), usize::MAX);
    assert_eq!(times(integer(1 << 63), integer(1 << 63)).x.to_usize(), usize::MAX);
    assert_eq!(over(integer(1), integer(1 << 63)).x.to_usize(), 0);
}
