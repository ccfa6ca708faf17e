//! Points in time and the spans between them.

use crate::float;
use crate::float::Float;
use crate::number::Number;
use vstd::prelude::*;

verus! {

pub const NANOS_PER_SEC: u32 = 1_000_000_000;

/// A span of time: whole seconds, and nanoseconds that make up less than one.
#[derive(Clone, Copy, Debug)]
pub struct Duration {
    secs: u64,
    nanos: u32,
}

/// The number of seconds in a span of `nanos` nanoseconds: the whole seconds and
/// the fraction of a second are each rounded before they are added.
pub open spec fn seconds(nanos: nat) -> Number {
    Number::integer(nanos / NANOS_PER_SEC as nat).plus(
        Number::integer(nanos % NANOS_PER_SEC as nat).over(Number::integer(NANOS_PER_SEC as nat)),
    )
}

/// The length in nanoseconds of the longest span.
pub open spec fn max_nanos() -> nat {
    (u64::MAX * NANOS_PER_SEC + NANOS_PER_SEC - 1) as nat
}

impl View for Duration {
    type V = nat;

    /// The length in nanoseconds.
    closed spec fn view(&self) -> nat {
        (self.secs * NANOS_PER_SEC + self.nanos) as nat
    }
}

impl Duration {
    #[verifier::type_invariant]
    spec fn inv(self) -> bool {
        self.nanos < NANOS_PER_SEC
    }

    pub fn zero() -> (d: Duration)
        ensures
            d@ == 0,
    {
        Duration { secs: 0, nanos: 0 }
    }

    pub fn from_millis(millis: u64) -> (d: Duration)
        ensures
            d@ == millis * 1_000_000,
    {
        Duration { secs: millis / 1000, nanos: (millis % 1000) as u32 * 1_000_000 }
    }

    pub fn from_nanos(nanos: u64) -> (d: Duration)
        ensures
            d@ == nanos,
    {
        proof {
            vstd::arithmetic::div_mod::lemma_fundamental_div_mod(
                nanos as int,
                NANOS_PER_SEC as int,
            );
        }
        Duration {
            secs: nanos / NANOS_PER_SEC as u64,
            nanos: (nanos % NANOS_PER_SEC as u64) as u32,
        }
    }

    pub fn is_zero(self) -> (r: bool)
        ensures
            r == (self@ == 0),
    {
        self.secs == 0 && self.nanos == 0
    }

    /// The sum, unless it is longer than the longest span.
    pub fn checked_add(self, other: Duration) -> (r: Option<Duration>)
        ensures
            match r {
                Some(d) => d@ == self@ + other@ && self@ + other@ <= max_nanos(),
                None => self@ + other@ > max_nanos(),
            },
    {
        proof {
            use_type_invariant(&self);
            use_type_invariant(&other);
        }
        let nanos: u32 = self.nanos + other.nanos;
        let secs: u128 = self.secs as u128 + other.secs as u128 + (nanos / NANOS_PER_SEC) as u128;
        if secs > u64::MAX as u128 {
            None
        } else {
            Some(Duration { secs: secs as u64, nanos: nanos % NANOS_PER_SEC })
        }
    }

    /// The difference, or zero where `other` is the longer span.
    pub fn saturating_sub(self, other: Duration) -> (d: Duration)
        ensures
            d@ == if self@ >= other@ {
                self@ - other@
            } else {
                0
            },
    {
        proof {
            use_type_invariant(&self);
            use_type_invariant(&other);
        }
        if self.less_than(other) {
            Duration::zero()
        } else if self.nanos >= other.nanos {
            Duration { secs: self.secs - other.secs, nanos: self.nanos - other.nanos }
        } else {
            Duration {
                secs: self.secs - other.secs - 1,
                nanos: self.nanos + NANOS_PER_SEC - other.nanos,
            }
        }
    }

    pub fn less_than(self, other: Duration) -> (r: bool)
        ensures
            r == (self@ < other@),
    {
        proof {
            use_type_invariant(&self);
            use_type_invariant(&other);
        }
        self.secs < other.secs || (self.secs == other.secs && self.nanos < other.nanos)
    }

    /// The length in seconds.
    pub fn as_secs(self) -> (r: Float)
        ensures
            r@ == seconds(self@),
            float::is_moderate(r@),
            !r@.neg,
            r@.is_zero() <==> self@ == 0,
            float::exponent_within(r@, -84, 14),
    {
        proof {
            use_type_invariant(&self);
            vstd::arithmetic::div_mod::lemma_fundamental_div_mod_converse(
                self@ as int,
                NANOS_PER_SEC as int,
                self.secs as int,
                self.nanos as int,
            );
        }
        let whole: Float = Float::from_integer(self.secs);
        let fraction: Float = Float::from_integer(self.nanos as u64).over(
            Float::from_integer(NANOS_PER_SEC as u64),
        );
        whole.plus(fraction)
    }
}

/// A point in time, at some span after an arbitrary fixed origin.
#[derive(Clone, Copy, Debug)]
pub struct Instant {
    since_origin: Duration,
}

impl View for Instant {
    type V = nat;

    /// The time since the origin in nanoseconds.
    closed spec fn view(&self) -> nat {
        self.since_origin@
    }
}

impl Instant {
    /// The point that lies `since_origin` after the origin.
    pub fn new(since_origin: Duration) -> (t: Instant)
        ensures
            t@ == since_origin@,
    {
        Instant { since_origin }
    }

    /// The point that lies `span` later, unless it is too far from the origin.
    pub fn checked_add(self, span: Duration) -> (r: Option<Instant>)
        ensures
            match r {
                Some(t) => t@ == self@ + span@ && self@ + span@ <= max_nanos(),
                None => self@ + span@ > max_nanos(),
            },
    {
        match self.since_origin.checked_add(span) {
            Some(since_origin) => Some(Instant { since_origin }),
            None => None,
        }
    }

    /// The time that has passed since `earlier`, or zero where that point is later.
    pub fn since(self, earlier: Instant) -> (d: Duration)
        ensures
            d@ == elapsed(earlier@, self@),
    {
        self.since_origin.saturating_sub(earlier.since_origin)
    }

    pub fn is_after(self, other: Instant) -> (r: bool)
        ensures
            r == (self@ > other@),
    {
        other.since_origin.less_than(self.since_origin)
    }
}

/// The nanoseconds from one point in time to another, or 0 where that is earlier.
pub open spec fn elapsed(from: nat, to: nat) -> nat {
    if to >= from {
        (to - from) as nat
    } else {
        0
    }
}

} // verus!
