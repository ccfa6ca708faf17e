//! CUBIC Congestion Control
//!
//! This implementation is based on the following RFC:
//!
//! https://tools.ietf.org/html/rfc8312
//!
//! Note that Slow Start can use HyStart++ when enabled.

use crate::float;
use crate::float::Float;
use crate::number;
use crate::number::Number;
use crate::packet;
use crate::packet::Epoch;
use crate::recovery;
use crate::recovery::reno;
use crate::recovery::HystartAck;
use crate::recovery::Recovery;
use crate::recovery::RecoveryModel;
use crate::recovery::Sent;
use crate::recovery::MAX_DATAGRAM_SIZE;
use crate::recovery::MINIMUM_WINDOW;
use crate::time;
use crate::time::Duration;
use crate::time::Instant;
use vstd::arithmetic::power2::*;
use vstd::prelude::*;

verus! {

/// The factor by which a congestion event multiplies the window: 0.7.
pub open spec fn beta() -> Number {
    Number::ratio(7, 10)
}

/// The constant that scales the cubic curve: 0.4.
pub open spec fn scale() -> Number {
    Number::ratio(4, 10)
}

pub open spec fn one() -> Number {
    Number::integer(1)
}

/// The size of the largest packet.
pub open spec fn datagram() -> Number {
    Number::integer(MAX_DATAGRAM_SIZE as nat)
}

/// A finite number, or what a division by zero gives in its place.
#[derive(Debug)]
pub enum Extended<T> {
    Finite(T),
    /// A positive number divided by zero.
    Infinite,
    /// Zero divided by zero.
    Undefined,
}

impl Extended<Number> {
    /// Whether a finite number is less: none is less than an undefined value.
    pub open spec fn exceeds(self, other: Number) -> bool {
        match self {
            Extended::Finite(x) => other.less_than(x),
            Extended::Infinite => true,
            Extended::Undefined => false,
        }
    }

    /// The integer part, clamped to what a `usize` can hold.
    pub open spec fn clamped(self) -> nat {
        match self {
            Extended::Finite(x) => x.clamped(),
            Extended::Infinite => usize::MAX as nat,
            Extended::Undefined => 0,
        }
    }
}

impl View for Extended<Float> {
    type V = Extended<Number>;

    open spec fn view(&self) -> Extended<Number> {
        match *self {
            Extended::Finite(x) => Extended::Finite(x@),
            Extended::Infinite => Extended::Infinite,
            Extended::Undefined => Extended::Undefined,
        }
    }
}

/// CUBIC State Variables.
///
/// We need to keep those variables across the connection.
/// k, w_max, w_last_max is described in the RFC.
#[derive(Clone, Copy, Debug)]
pub struct State {
    k: Float,
    w_max: Float,
    w_last_max: Float,
    // Used in CUBIC fix (see on_packet_sent())
    last_sent_time: Option<Instant>,
}

/// A [`State`] with its numbers and its point in time as mathematical values.
pub struct StateModel {
    pub k: Number,
    pub w_max: Number,
    pub w_last_max: Number,
    pub last_sent_time: Option<nat>,
}

impl View for State {
    type V = StateModel;

    closed spec fn view(&self) -> StateModel {
        StateModel {
            k: self.k@,
            w_max: self.w_max@,
            w_last_max: self.w_last_max@,
            last_sent_time: recovery::time_of(self.last_sent_time),
        }
    }
}

/// CUBIC Functions.
///
/// Note that these calculations are based on a count of cwnd as bytes,
/// not packets.
/// Unit of t (duration) and RTT are based on seconds.
impl StateModel {
    pub open spec fn initial() -> StateModel {
        StateModel {
            k: Number::zero(),
            w_max: Number::zero(),
            w_last_max: Number::zero(),
            last_sent_time: None,
        }
    }

    /// w_max in packets.
    pub open spec fn packets(self) -> Number {
        self.w_max.over(datagram())
    }

    /// K = cbrt(w_max * (1 - beta_cubic) / C) (Eq. 2)
    pub open spec fn cubic_k(self) -> Number {
        self.packets().times(one().minus(beta())).over(scale()).cube_root()
    }

    /// W_cubic(t) = C * (t - K)^3 + w_max (Eq. 1)
    pub open spec fn w_cubic(self, t: nat) -> Number {
        let x = time::seconds(t).minus(self.k);
        scale().times(x.times(x).times(x)).plus(self.packets()).times(datagram())
    }

    /// W_est(t) = w_max * beta_cubic + 3 * (1 - beta_cubic) / (1 + beta_cubic) *
    /// (t / RTT) (Eq. 4)
    pub open spec fn w_est(self, t: nat, rtt: nat) -> Extended<Number> {
        let rate = Number::integer(3).times(one().minus(beta())).over(one().plus(beta()));
        if rtt > 0 {
            let growth = rate.times(time::seconds(t)).over(time::seconds(rtt));
            Extended::Finite(self.packets().times(beta()).plus(growth).times(datagram()))
        } else if t > 0 {
            Extended::Infinite
        } else {
            Extended::Undefined
        }
    }
}

/// What the constants are in the binary64 format.
pub proof fn lemma_constants()
    ensures
        beta() == (Number { neg: false, mant: 0x16_6666_6666_6666, exp: -53 }),
        scale() == (Number { neg: false, mant: 0x19_9999_9999_999A, exp: -54 }),
        one() == (Number { neg: false, mant: 0x10_0000_0000_0000, exp: -52 }),
        !one().less_than(beta()),
{
    lemma2_to64();
    lemma2_to64_rest();
    lemma_pow2_unfold(54);
    assert(number::has_53_bits(7, 10, -53));
    number::lemma_rounded_at(false, 7, 10, 0, -53);
    assert(number::has_53_bits(4, 10, -54));
    number::lemma_rounded_at(false, 4, 10, 0, -54);
    assert(number::has_53_bits(1, 1, -52));
    number::lemma_rounded_at(false, 1, 1, 0, -52);
}

/// Numbers of the size of a window.
spec fn is_window(x: Number) -> bool {
    &&& x.wf()
    &&& !x.neg
    &&& float::exponent_within(x, -52, 12)
}

fn beta_cubic() -> (r: Float)
    ensures
        r@ == beta(),
        r@.wf(),
        !r@.neg,
        !r@.is_zero(),
        float::exponent_within(r@, -56, -48),
{
    Float::from_ratio(7, 10)
}

fn cubic_scale() -> (r: Float)
    ensures
        r@ == scale(),
        r@.wf(),
        !r@.neg,
        !r@.is_zero(),
        float::exponent_within(r@, -56, -48),
{
    Float::from_ratio(4, 10)
}

fn max_datagram_size() -> (r: Float)
    ensures
        r@ == datagram(),
        r@.wf(),
        !r@.neg,
        !r@.is_zero(),
        float::exponent_within(r@, -42, -41),
{
    Float::from_integer(MAX_DATAGRAM_SIZE as u64)
}

impl Default for State {
    fn default() -> (s: State)
        ensures
            s@ == StateModel::initial(),
    {
        State {
            k: Float::zero(),
            w_max: Float::zero(),
            w_last_max: Float::zero(),
            last_sent_time: None,
        }
    }
}

impl State {
    #[verifier::type_invariant]
    spec fn inv(self) -> bool {
        &&& is_window(self.w_max@)
        &&& is_window(self.w_last_max@)
        &&& self.k@.wf()
        &&& !self.k@.neg
        &&& float::exponent_within(self.k@, -80, 0)
    }

    /// w_max in packets.
    fn packets(&self) -> (r: Float)
        ensures
            r@ == self@.packets(),
            r@.wf(),
            !r@.neg,
            float::exponent_within(r@, -64, 4),
    {
        proof {
            use_type_invariant(self);
        }
        self.w_max.over(max_datagram_size())
    }

    /// K = cbrt(w_max * (1 - beta_cubic) / C) (Eq. 2)
    pub fn cubic_k(&self) -> (r: Float)
        ensures
            r@ == self@.cubic_k(),
            r@.wf(),
            !r@.neg,
            float::exponent_within(r@, -80, 0),
    {
        proof {
            lemma_constants();
        }
        let rest: Float = Float::from_integer(1).minus(beta_cubic());
        self.packets().times(rest).over(cubic_scale()).cube_root()
    }

    /// W_cubic(t) = C * (t - K)^3 + w_max (Eq. 1)
    pub fn w_cubic(&self, t: Duration) -> (r: Float)
        ensures
            r@ == self@.w_cubic(t@),
            r@.wf(),
            float::exponent_within(r@, -360, 190),
    {
        proof {
            use_type_invariant(self);
        }
        let x: Float = t.as_secs().minus(self.k);
        let curve: Float = cubic_scale().times(x.times(x).times(x));
        curve.plus(self.packets()).times(max_datagram_size())
    }

    /// W_est(t) = w_max * beta_cubic + 3 * (1 - beta_cubic) / (1 + beta_cubic) *
    /// (t / RTT) (Eq. 4)
    pub fn w_est(&self, t: Duration, rtt: Duration) -> (r: Extended<Float>)
        ensures
            r@ == self@.w_est(t@, rtt@),
            r matches Extended::Finite(x) ==> x@.wf(),
    {
        proof {
            lemma_constants();
        }
        let one: Float = Float::from_integer(1);
        let rate: Float = Float::from_integer(3).times(one.minus(beta_cubic())).over(
            one.plus(beta_cubic()),
        );
        if !rtt.is_zero() {
            let growth: Float = rate.times(t.as_secs()).over(rtt.as_secs());
            let start: Float = self.packets().times(beta_cubic());
            Extended::Finite(start.plus(growth).times(max_datagram_size()))
        } else if !t.is_zero() {
            Extended::Infinite
        } else {
            Extended::Undefined
        }
    }
}

/// The window `cwnd` cut by the factor beta_cubic, but not below the minimum window.
pub open spec fn reduced_window(cwnd: nat) -> nat {
    recovery::max(Number::integer(cwnd).times(beta()).clamped(), MINIMUM_WINDOW as nat)
}

/// The bytes that one acknowledgement adds to the window `cwnd` below the curve:
/// (W_cubic - cwnd) / cwnd packets. The quotient by an empty window is infinite.
pub open spec fn window_increment(w_cubic: Number, cwnd: nat) -> nat {
    if cwnd == 0 {
        usize::MAX as nat
    } else {
        let window = Number::integer(cwnd);
        w_cubic.minus(window).over(window).times(datagram()).clamped()
    }
}

/// The window that follows `cwnd` in congestion avoidance.
pub open spec fn next_window(w_cubic: Number, w_est: Extended<Number>, cwnd: nat) -> nat {
    if w_est.exceeds(w_cubic) {
        // TCP friendly region.
        recovery::max(cwnd, w_est.clamped())
    } else if cwnd < w_cubic.clamped() {
        // Concave region or convex region use same increment.
        cwnd + window_increment(w_cubic, cwnd)
    } else {
        cwnd
    }
}

impl RecoveryModel {
    pub open spec fn after_collapse(self) -> RecoveryModel {
        RecoveryModel {
            cubic_state: StateModel {
                w_max: Number::integer(self.congestion_window),
                w_last_max: Number::integer(self.congestion_window),
                ..self.cubic_state
            },
            congestion_recovery_start_time: None,
            ssthresh: reduced_window(self.congestion_window),
            congestion_window: MINIMUM_WINDOW as nat,
            ..self
        }
    }

    /// The start of the recovery period once a packet is sent at `now`: later by the
    /// time that nothing was sent, where that packet ends a pause with nothing in
    /// flight.
    pub open spec fn shifted_start(self, now: nat) -> Option<nat> {
        match (self.cubic_state.last_sent_time, self.congestion_recovery_start_time) {
            (Some(last), Some(start)) if self.bytes_in_flight == 0 => Some(
                start + time::elapsed(last, now),
            ),
            _ => self.congestion_recovery_start_time,
        }
    }

    /// Whether the bytes in flight and the start of the recovery period that follow can
    /// be represented.
    pub open spec fn can_send(self, sent_bytes: nat, now: nat) -> bool {
        &&& self.bytes_in_flight + sent_bytes <= usize::MAX
        &&& match (self.cubic_state.last_sent_time, self.congestion_recovery_start_time) {
            (Some(last), Some(start)) if self.bytes_in_flight == 0 => start + time::elapsed(
                last,
                now,
            ) <= time::max_nanos(),
            _ => true,
        }
    }

    pub open spec fn after_sent(self, sent_bytes: nat, now: nat) -> RecoveryModel {
        RecoveryModel {
            cubic_state: StateModel { last_sent_time: Some(now), ..self.cubic_state },
            congestion_recovery_start_time: self.shifted_start(now),
            bytes_in_flight: self.bytes_in_flight + sent_bytes,
            ..self
        }
    }

    pub open spec fn after_congestion_event(self, time_sent: nat, now: nat) -> RecoveryModel {
        if self.in_congestion_recovery(time_sent) {
            self
        } else {
            let w_max = Number::integer(self.congestion_window);
            let state = StateModel {
                w_max,
                w_last_max: self.cubic_state.w_max,
                ..self.cubic_state
            };
            RecoveryModel {
                cubic_state: StateModel { k: state.cubic_k(), ..state },
                congestion_recovery_start_time: Some(now),
                ssthresh: reduced_window(self.congestion_window),
                congestion_window: reduced_window(self.congestion_window),
                ..self
            }
        }
    }

    /// Whether a packet sent at `time_sent` and acknowledged lets the window grow.
    pub open spec fn may_grow(self, time_sent: nat) -> bool {
        !self.in_congestion_recovery(time_sent) && !self.app_limited
    }

    /// Whether HyStart++ is to be told of the acknowledgement of such a packet: in slow
    /// start, and later while it is in Limited Slow Start.
    pub open spec fn consults_hystart(self, epoch: Epoch, time_sent: nat) -> bool {
        &&& self.may_grow(time_sent)
        &&& self.hystart.enabled
        &&& epoch == packet::EPOCH_APPLICATION
        &&& self.congestion_window < self.ssthresh || self.hystart.in_lss
    }

    /// The state in which congestion avoidance goes on at `now`: where no recovery
    /// period began, one begins here, on a curve that starts at the window.
    pub open spec fn avoiding(self, now: nat) -> RecoveryModel {
        if self.congestion_recovery_start_time is None {
            RecoveryModel {
                cubic_state: StateModel {
                    k: Number::zero(),
                    w_max: Number::integer(self.congestion_window),
                    ..self.cubic_state
                },
                congestion_recovery_start_time: Some(now),
                ..self
            }
        } else {
            self
        }
    }

    /// How long the recovery period has lasted at `now`.
    pub open spec fn recovery_time(self, now: nat) -> nat {
        match self.congestion_recovery_start_time {
            Some(start) => time::elapsed(start, now),
            None => 0,
        }
    }

    /// The window that the curves W_cubic(t + rtt) and W_est(t) give at `now`.
    pub open spec fn avoidance_window(self, now: nat) -> nat {
        let t = self.recovery_time(now);
        next_window(
            self.cubic_state.w_cubic(t + self.min_rtt),
            self.cubic_state.w_est(t, self.min_rtt),
            self.congestion_window,
        )
    }

    /// Whether all that the acknowledgement computes can be represented.
    pub open spec fn can_ack(self, epoch: Epoch, time_sent: nat, size: nat, now: nat) -> bool {
        self.may_grow(time_sent) ==> if self.congestion_window < self.ssthresh {
            self.consults_hystart(epoch, time_sent) || self.congestion_window + size <= usize::MAX
        } else {
            let m = self.avoiding(now);
            &&& m.recovery_time(now) + m.min_rtt <= time::max_nanos()
            &&& m.avoidance_window(now) <= usize::MAX
        }
    }

    pub open spec fn after_acked(
        self,
        epoch: Epoch,
        time_sent: nat,
        size: nat,
        now: nat,
        hystart_ack: Option<HystartAck>,
    ) -> RecoveryModel {
        let landed = RecoveryModel {
            bytes_in_flight: recovery::saturating_sub(self.bytes_in_flight, size),
            ..self
        };
        if !self.may_grow(time_sent) {
            landed
        } else if self.congestion_window < self.ssthresh {
            // Slow start.
            match hystart_ack {
                Some(ack) if self.consults_hystart(epoch, time_sent) => RecoveryModel {
                    congestion_window: ack.congestion_window as nat,
                    ssthresh: ack.ssthresh as nat,
                    ..landed
                },
                _ => RecoveryModel {
                    congestion_window: self.congestion_window + size,
                    ..landed
                },
            }
        } else {
            // Congestion avoidance.
            let m = landed.avoiding(now);
            let window = m.avoidance_window(now);
            match hystart_ack {
                Some(ack) if self.consults_hystart(epoch, time_sent) => RecoveryModel {
                    congestion_window: recovery::max(window, ack.congestion_window as nat),
                    ..m
                },
                _ => RecoveryModel { congestion_window: window, ..m },
            }
        }
    }
}

/// The window `cwnd` cut by the factor beta_cubic, but not below the minimum window.
fn reduce(cwnd: usize) -> (r: usize)
    ensures
        r == reduced_window(cwnd as nat),
{
    let reduced: usize = Float::from_integer(cwnd as u64).times(beta_cubic()).to_usize();
    if reduced >= MINIMUM_WINDOW {
        reduced
    } else {
        MINIMUM_WINDOW
    }
}

/// Answers persistent congestion: the window collapses and a slow start begins.
pub fn collapse_cwnd(r: &mut Recovery)
    ensures
        final(r)@ == old(r)@.after_collapse(),
{
    proof {
        use_type_invariant(&r.cubic_state);
    }
    let window: Float = Float::from_integer(r.congestion_window as u64);
    r.congestion_recovery_start_time = None;
    r.cubic_state = State {
        k: r.cubic_state.k,
        w_max: window,
        w_last_max: window,
        last_sent_time: r.cubic_state.last_sent_time,
    };
    // 4.7 Timeout - reduce ssthresh based on BETA_CUBIC
    r.ssthresh = reduce(r.congestion_window);
    reno::collapse_cwnd(r);
}

/// Whether [`on_packet_sent`] can represent the bytes in flight and the start of the
/// recovery period that follow.
pub fn can_send(r: &Recovery, sent_bytes: usize, now: Instant) -> (b: bool)
    ensures
        b == r@.can_send(sent_bytes as nat, now@),
{
    let start_fits: bool = match (r.cubic_state.last_sent_time, r.congestion_recovery_start_time) {
        (Some(last), Some(start)) => {
            r.bytes_in_flight != 0 || start.checked_add(now.since(last)).is_some()
        },
        _ => true,
    };
    start_fits && sent_bytes <= usize::MAX - r.bytes_in_flight
}

/// Takes note of a packet that is sent.
pub fn on_packet_sent(r: &mut Recovery, sent_bytes: usize, now: Instant)
    requires
        old(r)@.can_send(sent_bytes as nat, now@),
    ensures
        final(r)@ == old(r)@.after_sent(sent_bytes as nat, now@),
{
    proof {
        use_type_invariant(&r.cubic_state);
    }
    // First transmit when no packets in flight
    if let Some(last_sent_time) = r.cubic_state.last_sent_time {
        if r.bytes_in_flight == 0 {
            let delta: Duration = now.since(last_sent_time);
            // We were application limited (idle) for a while.
            // Shift epoch start to keep cwnd growth to cubic curve.
            if let Some(recovery_start_time) = r.congestion_recovery_start_time {
                if !delta.is_zero() {
                    r.congestion_recovery_start_time = recovery_start_time.checked_add(delta);
                }
            }
        }
    }
    r.cubic_state = State {
        k: r.cubic_state.k,
        w_max: r.cubic_state.w_max,
        w_last_max: r.cubic_state.w_last_max,
        last_sent_time: Some(now),
    };
    reno::on_packet_sent(r, sent_bytes);
}

/// Whether HyStart++ is to be told of the acknowledgement of `packet`.
pub fn consults_hystart(r: &Recovery, epoch: Epoch, packet: &Sent) -> (b: bool)
    ensures
        b == r@.consults_hystart(epoch, packet.time_sent@),
{
    !r.in_congestion_recovery(packet.time_sent) && !r.app_limited && r.hystart.enabled && epoch
        == packet::EPOCH_APPLICATION && (r.congestion_window < r.ssthresh || r.hystart.in_lss)
}

/// The curve and the start of the recovery period with which congestion avoidance goes
/// on at `now`.
fn avoidance_start(r: &Recovery, now: Instant) -> (s: (State, Instant))
    ensures
        s.0@ == r@.avoiding(now@).cubic_state,
        Some(s.1@) == r@.avoiding(now@).congestion_recovery_start_time,
{
    proof {
        use_type_invariant(&r.cubic_state);
    }
    match r.congestion_recovery_start_time {
        Some(start) => (r.cubic_state, start),
        None => {
            // When we come here without congestion_event() triggered, no recovery period
            // has begun. This is also the first congestion avoidance after a timeout.
            // Following 4.7 of RFC, set k to 0 and reset w_max to cwnd during this
            // period.
            let state = State {
                k: Float::zero(),
                w_max: Float::from_integer(r.congestion_window as u64),
                w_last_max: r.cubic_state.w_last_max,
                last_sent_time: r.cubic_state.last_sent_time,
            };
            (state, now)
        },
    }
}

/// The bytes that one acknowledgement adds to the window `cwnd` below the curve.
fn increment(w_cubic: Float, cwnd: usize) -> (r: usize)
    requires
        w_cubic@.wf(),
        float::exponent_within(w_cubic@, -360, 190),
    ensures
        r == window_increment(w_cubic@, cwnd as nat),
{
    if cwnd == 0 {
        usize::MAX
    } else {
        let window: Float = Float::from_integer(cwnd as u64);
        w_cubic.minus(window).over(window).times(max_datagram_size()).to_usize()
    }
}

/// The window that the curves of `state` give after the time `t` in recovery, if it can
/// be represented.
fn window_on_curve(state: &State, t: Duration, min_rtt: Duration, cwnd: usize) -> (r: Option<usize>)
    ensures
        ({
            let window = next_window(
                state@.w_cubic(t@ + min_rtt@),
                state@.w_est(t@, min_rtt@),
                cwnd as nat,
            );
            match r {
                Some(w) => w == window && t@ + min_rtt@ <= time::max_nanos(),
                None => window > usize::MAX || t@ + min_rtt@ > time::max_nanos(),
            }
        }),
{
    let ahead: Duration = match t.checked_add(min_rtt) {
        Some(ahead) => ahead,
        None => return None,
    };
    // w_cubic(t + rtt)
    let w_cubic: Float = state.w_cubic(ahead);
    // w_est(t)
    let w_est: Extended<Float> = state.w_est(t, min_rtt);
    let friendly: Option<usize> = match w_est {
        Extended::Finite(x) => {
            if w_cubic.less_than(x) {
                Some(x.to_usize())
            } else {
                None
            }
        },
        Extended::Infinite => Some(usize::MAX),
        Extended::Undefined => None,
    };
    match friendly {
        Some(target) => Some(
            if cwnd >= target {
                cwnd
            } else {
                target
            },
        ),
        None => {
            if cwnd < w_cubic.to_usize() {
                let more: usize = increment(w_cubic, cwnd);
                if more <= usize::MAX - cwnd {
                    Some(cwnd + more)
                } else {
                    None
                }
            } else {
                Some(cwnd)
            }
        },
    }
}

/// Whether [`on_packet_acked`] can represent all that it computes.
pub fn can_ack(r: &Recovery, epoch: Epoch, packet: &Sent, now: Instant) -> (b: bool)
    ensures
        b == r@.can_ack(epoch, packet.time_sent@, packet.size as nat, now@),
{
    if r.in_congestion_recovery(packet.time_sent) || r.app_limited {
        true
    } else if r.congestion_window < r.ssthresh {
        consults_hystart(r, epoch, packet) || packet.size <= usize::MAX - r.congestion_window
    } else {
        let (state, start) = avoidance_start(r, now);
        window_on_curve(&state, now.since(start), r.min_rtt, r.congestion_window).is_some()
    }
}

/// Takes note of a packet that is acknowledged. Where [`consults_hystart`] says so,
/// `hystart_ack` is what HyStart++ answers the acknowledgement with.
pub fn on_packet_acked(
    r: &mut Recovery,
    epoch: Epoch,
    packet: &Sent,
    now: Instant,
    hystart_ack: Option<HystartAck>,
)
    requires
        old(r)@.can_ack(epoch, packet.time_sent@, packet.size as nat, now@),
        old(r)@.consults_hystart(epoch, packet.time_sent@) ==> hystart_ack is Some,
    ensures
        final(r)@ == old(r)@.after_acked(
            epoch,
            packet.time_sent@,
            packet.size as nat,
            now@,
            hystart_ack,
        ),
{
    let in_congestion_recovery: bool = r.in_congestion_recovery(packet.time_sent);
    let consulted: bool = consults_hystart(r, epoch, packet);
    r.bytes_in_flight = if r.bytes_in_flight >= packet.size {
        r.bytes_in_flight - packet.size
    } else {
        0
    };
    if in_congestion_recovery {
        return ;
    }
    if r.app_limited {
        return ;
    }
    if r.congestion_window < r.ssthresh {
        // Slow start.
        match hystart_ack {
            Some(ack) if consulted => {
                r.congestion_window = ack.congestion_window;
                r.ssthresh = ack.ssthresh;
            },
            _ => {
                // Reno Slow Start.
                r.congestion_window = r.congestion_window + packet.size;
            },
        }
    } else {
        // Congestion avoidance.
        let (state, start) = avoidance_start(r, now);
        r.cubic_state = state;
        r.congestion_recovery_start_time = Some(start);
        let t: Duration = now.since(start);
        if let Some(window) = window_on_curve(&state, t, r.min_rtt, r.congestion_window) {
            // When in Limited Slow Start, take the max of CA cwnd and
            // LSS cwnd.
            r.congestion_window = match hystart_ack {
                Some(ack) if consulted && ack.congestion_window > window => ack.congestion_window,
                _ => window,
            };
        }
    }
}

/// Answers the loss of a packet sent at `time_sent`. Says whether HyStart++ is to be
/// told of a new congestion event.
pub fn congestion_event(r: &mut Recovery, time_sent: Instant, epoch: Epoch, now: Instant) -> (
    tell_hystart: bool)
    ensures
        final(r)@ == old(r)@.after_congestion_event(time_sent@, now@),
        tell_hystart == (!old(r)@.in_congestion_recovery(time_sent@) && old(r)@.hystart.enabled
            && epoch == packet::EPOCH_APPLICATION),
{
    proof {
        use_type_invariant(&r.cubic_state);
    }
    // Start a new congestion event if packet was sent after the
    // start of the previous congestion recovery period.
    if r.in_congestion_recovery(time_sent) {
        return false;
    }
    r.congestion_recovery_start_time = Some(now);
    // Fast convergence: w_max starts over at the window, whatever it was, and its last
    // value is kept as w_last_max.
    let state = State {
        k: r.cubic_state.k,
        w_max: Float::from_integer(r.congestion_window as u64),
        w_last_max: r.cubic_state.w_max,
        last_sent_time: r.cubic_state.last_sent_time,
    };
    r.ssthresh = reduce(r.congestion_window);
    r.congestion_window = r.ssthresh;
    r.cubic_state = State {
        k: state.cubic_k(),
        w_max: state.w_max,
        w_last_max: state.w_last_max,
        last_sent_time: state.last_sent_time,
    };
    r.hystart.enabled && epoch == packet::EPOCH_APPLICATION
}

} // verus!
