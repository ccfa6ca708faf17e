//! What holds of the window over the course of a connection.

use crate::number::Number;
use crate::packet;
use crate::packet::Epoch;
use crate::recovery;
use crate::recovery::cubic;
use crate::recovery::cubic::Extended;
use crate::recovery::curve;
use crate::recovery::HystartAck;
use crate::recovery::RecoveryModel;
use crate::recovery::MAX_DATAGRAM_SIZE;
use crate::recovery::MINIMUM_WINDOW;
use crate::time;
use crate::value;
use vstd::prelude::*;

verus! {

/// The window never falls below the minimum window: not at the start, and not by any
/// event. HyStart++, where it sets the window, has to keep to this as well.
pub proof fn law_minimum_window(
    m: RecoveryModel,
    hystart_enabled: bool,
    epoch: Epoch,
    time_sent: nat,
    size: nat,
    now: nat,
    hystart_ack: Option<HystartAck>,
)
    requires
        2904 <= m.congestion_window,
        hystart_ack matches Some(ack) ==> 2904 <= ack.congestion_window,
    ensures
        m.wf() <==> 2904 <= m.congestion_window,
        2904 <= RecoveryModel::initial(hystart_enabled).congestion_window,
        2904 <= m.after_sent(size, now).congestion_window,
        2904 <= m.after_acked(epoch, time_sent, size, now, hystart_ack).congestion_window,
        2904 <= m.after_congestion_event(time_sent, now).congestion_window,
        2904 <= m.after_collapse().congestion_window,
{
}

/// There is one reduction in a recovery period: once an event at `now` has begun it,
/// the loss of packets that were sent no later changes nothing.
pub proof fn law_one_reduction_per_period(
    m: RecoveryModel,
    time_sent: nat,
    now: nat,
    time_sent2: nat,
    now2: nat,
)
    requires
        !m.in_congestion_recovery(time_sent),
        time_sent2 <= now,
    ensures
        m.after_congestion_event(time_sent, now).after_congestion_event(time_sent2, now2)
            == m.after_congestion_event(time_sent, now),
{
}

/// Once a recovery period has begun at `now`, the acknowledgement of a packet that was
/// sent no later changes the bytes in flight alone.
pub proof fn law_no_growth_in_recovery(
    m: RecoveryModel,
    time_lost: nat,
    now: nat,
    epoch: Epoch,
    time_sent: nat,
    size: nat,
    now2: nat,
    hystart_ack: Option<HystartAck>,
)
    requires
        !m.in_congestion_recovery(time_lost),
        time_sent <= now,
    ensures
        ({
            let lost = m.after_congestion_event(time_lost, now);
            lost.after_acked(epoch, time_sent, size, now2, hystart_ack) == (RecoveryModel {
                bytes_in_flight: recovery::saturating_sub(lost.bytes_in_flight, size),
                ..lost
            })
        }),
{
}

/// After a collapse no packet counts as sent in a recovery period, and the next
/// acknowledgement is one of slow start wherever the threshold is above the minimum
/// window.
pub proof fn law_collapse_restarts_slow_start(m: RecoveryModel, time_sent: nat)
    ensures
        !m.after_collapse().in_congestion_recovery(time_sent),
        m.after_collapse().congestion_window == MINIMUM_WINDOW,
        m.after_collapse().congestion_window <= m.after_collapse().ssthresh,
{
}

/// What is sent and then acknowledged is no longer in flight.
pub proof fn law_bytes_in_flight_return(
    m: RecoveryModel,
    size: nat,
    time_sent: nat,
    epoch: Epoch,
    now: nat,
    hystart_ack: Option<HystartAck>,
)
    ensures
        m.after_sent(size, time_sent).after_acked(
            epoch,
            time_sent,
            size,
            now,
            hystart_ack,
        ).bytes_in_flight == m.bytes_in_flight,
{
}

/// A pause with nothing in flight does not count as time in recovery: at the first
/// packet after it, the curve is where it was at the last packet before.
pub proof fn law_pause_is_not_recovery_time(
    m: RecoveryModel,
    start: nat,
    last: nat,
    sent_bytes: nat,
    now: nat,
)
    requires
        m.bytes_in_flight == 0,
        m.congestion_recovery_start_time == Some(start),
        m.cubic_state.last_sent_time == Some(last),
        last <= now,
    ensures
        m.after_sent(sent_bytes, now).recovery_time(now) == m.recovery_time(last),
{
}

/// An acknowledgement never shrinks the window, unless HyStart++ does so in slow start.
pub proof fn law_acknowledgement_keeps_window(
    m: RecoveryModel,
    epoch: Epoch,
    time_sent: nat,
    size: nat,
    now: nat,
    hystart_ack: Option<HystartAck>,
)
    requires
        hystart_ack matches Some(ack) ==> m.congestion_window < m.ssthresh
            ==> m.congestion_window <= ack.congestion_window,
    ensures
        m.congestion_window <= m.after_acked(
            epoch,
            time_sent,
            size,
            now,
            hystart_ack,
        ).congestion_window,
{
}

/// The cut window is seven tenths of the window, to the byte below, as long as it is
/// above the minimum window. The rounding of windows from `2^48` bytes on may add an
/// error of a `2^48`th part.
pub proof fn law_reduction_is_seven_tenths(cwnd: usize)
    ensures
        ({
            let cut = cubic::reduced_window(cwnd as nat);
            let slack = cwnd as int / 0x1_0000_0000_0000;
            &&& MINIMUM_WINDOW <= cut
            &&& 7 * cwnd - 10 - slack <= 10 * cut
            &&& MINIMUM_WINDOW < cut ==> 10 * cut <= 7 * cwnd + slack && cut < cwnd
        }),
{
    let window = Number::integer(cwnd as nat);
    let product = window.times(cubic::beta());
    value::lemma_integer_value(cwnd as nat);
    value::lemma_ratio_value(7, 10);
    value::lemma_times_value(window, cubic::beta());
    value::lemma_value_sign(window);
    value::lemma_value_sign(cubic::beta());
    assert(!product.neg);
    value::lemma_truncated_value(product);
    let (n, w, b, p) = (
        cwnd as real,
        value::value(window),
        value::value(cubic::beta()),
        value::value(product),
    );
    let u = value::unit_roundoff();
    assert(0 as real <= n * u && 0 as real <= w * b) by (nonlinear_arith)
        requires
            n >= 0 as real,
            w >= 0 as real,
            b >= 0 as real,
            u >= 0 as real,
    ;
    let tenths = 7 as real / 10 as real;
    assert(u == 1 as real / 0x20_0000_0000_0000 as real);
    // Each of the three roundings is off by the `2^53`rd part at most.
    let e = (4 as real) * u;
    assert(tenths * n * (1 as real - e) <= p && p <= tenths * n * (1 as real + e))
        by (nonlinear_arith)
        requires
            n >= 0 as real,
            w >= 0 as real,
            b >= 0 as real,
            n - n * u <= w <= n + n * u,
            tenths - tenths * u <= b <= tenths + tenths * u,
            w * b - (w * b) * u <= p <= w * b + (w * b) * u,
            u == 1 as real / 0x20_0000_0000_0000 as real,
            tenths == 7 as real / 10 as real,
            e == (4 as real) * u,
    {
        let lo = 1 as real - u;
        let hi = 1 as real + u;
        assert(n * lo <= w <= n * hi);
        assert(tenths * lo <= b <= tenths * hi);
        assert((n * lo) * (tenths * lo) <= w * b);
        assert(w * b <= (n * hi) * (tenths * hi));
        assert((w * b) * lo <= p <= (w * b) * hi);
        assert((n * lo) * (tenths * lo) * lo <= p);
        assert(p <= (n * hi) * (tenths * hi) * hi);
        assert((n * lo) * (tenths * lo) * lo == (tenths * n) * (lo * lo * lo));
        assert((n * hi) * (tenths * hi) * hi == (tenths * n) * (hi * hi * hi));
        assert(lo * lo * lo >= 1 as real - e);
        assert(hi * hi * hi <= 1 as real + e);
        assert(tenths * n >= 0 as real);
        assert((tenths * n) * (lo * lo * lo) >= (tenths * n) * (1 as real - e));
        assert((tenths * n) * (hi * hi * hi) <= (tenths * n) * (1 as real + e));
    }
    let t = product.truncated();
    let k = 10 * t - 7 * cwnd;
    assert(tenths * n * (1 as real - e) == tenths * n - (tenths * 4 as real) * (n * u)
        && tenths * n * (1 as real + e) == tenths * n + (tenths * 4 as real) * (n * u))
        by (nonlinear_arith)
        requires
            e == (4 as real) * u,
    ;
    assert(n * u * 0x20_0000_0000_0000 as real == n) by (nonlinear_arith)
        requires
            u == 1 as real / 0x20_0000_0000_0000 as real,
    ;
    assert((k * 0x1_0000_0000_0000) as real <= n);
    assert(((k + 10) * 0x1_0000_0000_0000) as real >= -n);
    assert(k * 0x1_0000_0000_0000 <= cwnd);
    assert((k + 10) * 0x1_0000_0000_0000 >= -cwnd);
    assert(t <= usize::MAX);
    assert(product.clamped() == t);
}

/// A congestion event never lets the window grow, and the window that it leaves is the
/// new threshold.
pub proof fn law_congestion_event_shrinks_window(m: RecoveryModel, time_sent: nat, now: nat)
    requires
        2904 <= m.congestion_window <= usize::MAX,
    ensures
        ({
            let lost = m.after_congestion_event(time_sent, now);
            &&& lost.congestion_window <= m.congestion_window
            &&& !m.in_congestion_recovery(time_sent) ==> lost.congestion_window == lost.ssthresh
        }),
{
    law_reduction_is_seven_tenths(m.congestion_window as usize);
}

/// In slow start without HyStart++ the window grows by what is acknowledged.
pub proof fn law_slow_start_grows_by_packet_size(
    m: RecoveryModel,
    epoch: Epoch,
    time_sent: nat,
    size: nat,
    now: nat,
    hystart_ack: Option<HystartAck>,
)
    requires
        m.may_grow(time_sent),
        m.congestion_window < m.ssthresh,
        !m.consults_hystart(epoch, time_sent),
    ensures
        m.after_acked(epoch, time_sent, size, now, hystart_ack).congestion_window
            == m.congestion_window + size,
{
}

/// While the application, not the window, limits what is sent, the window stays.
pub proof fn law_application_limit_keeps_window(
    m: RecoveryModel,
    epoch: Epoch,
    time_sent: nat,
    size: nat,
    now: nat,
    hystart_ack: Option<HystartAck>,
)
    requires
        m.app_limited,
    ensures
        ({
            let acked = m.after_acked(epoch, time_sent, size, now, hystart_ack);
            &&& acked.congestion_window == m.congestion_window
            &&& acked.ssthresh == m.ssthresh
        }),
{
}

/// The curve that a congestion event sets up starts out at seven tenths of the window
/// before the event. Up to the time K it is not above that window, and from then on not
/// below; all but for an error of a `2^48`th part.
pub proof fn law_congestion_event_sets_curve(m: RecoveryModel, time_sent: nat, now: nat, t: nat)
    requires
        !m.in_congestion_recovery(time_sent),
    ensures
        ({
            let state = m.after_congestion_event(time_sent, now).cubic_state;
            let w = value::value(Number::integer(m.congestion_window));
            let slack = w / 0x1_0000_0000_0000 as real;
            let tenths = 7 as real / 10 as real;
            let (x, k) = (value::value(time::seconds(t)), value::value(state.k));
            &&& value::abs(value::value(state.w_cubic(0)) - w * tenths) <= slack
            &&& x <= k ==> value::value(state.w_cubic(t)) <= w + slack
            &&& x >= k ==> value::value(state.w_cubic(t)) >= w - slack
        }),
{
    let state = m.after_congestion_event(time_sent, now).cubic_state;
    value::lemma_integer_value(m.congestion_window);
    curve::law_curve_starts_at_reduced_window(state);
    curve::law_curve_reaches_w_max_at_k(state, t);
}

/// An increment that is not negative ends no higher than the curve: the bound on the
/// values, with the error of each rounding.
proof fn lemma_increment_bound(c: real, w: real, cr: real, d: real, q: real, g: real, z: real)
    requires
        2904 as real <= c,
        c + 1 as real <= w,
        value::is_close(cr, c),
        value::is_close(d, w - cr),
        value::is_close(q, d / cr),
        value::is_close(g, 1452 as real),
        value::is_close(z, q * g),
        w >= cr,
    ensures
        c + z <= w,
{
    let u = value::unit_roundoff();
    assert(u == 1 as real / 0x20_0000_0000_0000 as real);
    let one = 1 as real;
    assert(c * (one - u) <= cr && c * u >= 0 as real && cr >= 2903 as real) by (nonlinear_arith)
        requires
            2904 as real <= c,
            value::abs(cr - c) <= value::abs(c) * u,
            u == one / 0x20_0000_0000_0000 as real,
            one == 1 as real,
    ;
    let gap = w - cr;
    assert(0 as real <= d <= gap * (one + u)) by (nonlinear_arith)
        requires
            gap >= 0 as real,
            value::abs(d - gap) <= value::abs(gap) * u,
            u == one / 0x20_0000_0000_0000 as real,
            one == 1 as real,
    ;
    let ratio = d / cr;
    assert(ratio * cr == d && ratio >= 0 as real) by (nonlinear_arith)
        requires
            ratio == d / cr,
            d >= 0 as real,
            cr >= 2903 as real,
    ;
    assert(0 as real <= q <= ratio * (one + u)) by (nonlinear_arith)
        requires
            ratio >= 0 as real,
            value::abs(q - ratio) <= value::abs(ratio) * u,
            u == one / 0x20_0000_0000_0000 as real,
            one == 1 as real,
    ;
    assert(0 as real <= g <= 1452 as real * (one + u)) by (nonlinear_arith)
        requires
            value::abs(g - 1452 as real) <= value::abs(1452 as real) * u,
            u == one / 0x20_0000_0000_0000 as real,
            one == 1 as real,
    ;
    let p = q * g;
    assert(p >= 0 as real) by (nonlinear_arith)
        requires
            p == q * g,
            q >= 0 as real,
            g >= 0 as real,
    ;
    assert(z <= p * (one + u)) by (nonlinear_arith)
        requires
            p >= 0 as real,
            value::abs(z - p) <= value::abs(p) * u,
            one == 1 as real,
    ;
    // In packets, the way to the curve.
    let hi = one + u;
    assert(p <= (ratio * hi) * (1452 as real * hi)) by (nonlinear_arith)
        requires
            p == q * g,
            0 as real <= q <= ratio * hi,
            0 as real <= g <= 1452 as real * hi,
    ;
    let m = ratio * 1452 as real;
    assert(z <= m * (hi * hi * hi)) by (nonlinear_arith)
        requires
            z <= p * hi,
            p <= (ratio * hi) * (1452 as real * hi),
            m == ratio * 1452 as real,
            hi >= one,
            one == 1 as real,
    {
        assert(p * hi <= ((ratio * hi) * (1452 as real * hi)) * hi);
        assert(((ratio * hi) * (1452 as real * hi)) * hi == m * (hi * hi * hi));
    }
    let cube = hi * hi * hi;
    assert(cube * 100 as real <= 101 as real && hi * 100 as real <= 101 as real)
        by (nonlinear_arith)
        requires
            hi == one + u,
            cube == hi * hi * hi,
            u == one / 0x20_0000_0000_0000 as real,
            one == 1 as real,
    ;
    assert(m >= 0 as real && m * cr == 1452 as real * d) by (nonlinear_arith)
        requires
            m == ratio * 1452 as real,
            ratio * cr == d,
            ratio >= 0 as real,
    ;
    assert(z * 100 as real <= m * 101 as real) by (nonlinear_arith)
        requires
            z <= m * cube,
            cube * 100 as real <= 101 as real,
            m >= 0 as real,
    ;
    assert(d * 100 as real <= gap * 101 as real) by (nonlinear_arith)
        requires
            d <= gap * hi,
            hi * 100 as real <= 101 as real,
            gap >= 0 as real,
    ;
    // The window itself may have been rounded down.
    let near = w - c;
    let off = c * u;
    assert(gap <= near + off) by (nonlinear_arith)
        requires
            gap == w - cr,
            near == w - c,
            off == c * u,
            c * (one - u) <= cr,
            one == 1 as real,
    ;
    let room = near * c;
    assert(off * 1000000 as real <= room && near * 2904 as real <= room) by (nonlinear_arith)
        requires
            room == near * c,
            near >= one,
            c >= 2904 as real,
            off == c * u,
            u == one / 0x20_0000_0000_0000 as real,
            one == 1 as real,
    ;
    // A window of two packets or more goes about half of the way.
    if z > near {
        assert(m * cr * 101 as real >= z * cr * 100 as real) by (nonlinear_arith)
            requires
                z * 100 as real <= m * 101 as real,
                cr >= 0 as real,
        ;
        assert(z * cr * 100 as real >= room * 99 as real) by (nonlinear_arith)
            requires
                z >= near,
                near >= 0 as real,
                room == near * c,
                c >= 0 as real,
                c * (one - u) <= cr,
                u == one / 0x20_0000_0000_0000 as real,
                one == 1 as real,
        {
            assert(cr * 100 as real >= c * 99 as real);
            assert(z * (cr * 100 as real) >= near * (c * 99 as real));
        }
    }
}

/// Below the curve the window grows towards it and does not pass it.
proof fn lemma_window_stays_below_curve(w_cubic: Number, cwnd: usize)
    requires
        MINIMUM_WINDOW <= cwnd < w_cubic.clamped(),
    ensures
        cwnd + cubic::window_increment(w_cubic, cwnd as nat) <= w_cubic.truncated(),
{
    let window = Number::integer(cwnd as nat);
    let difference = w_cubic.minus(window);
    let quotient = difference.over(window);
    let step = quotient.times(cubic::datagram());
    value::lemma_integer_value(cwnd as nat);
    value::lemma_integer_value(MAX_DATAGRAM_SIZE as nat);
    value::lemma_minus_value(w_cubic, window);
    value::lemma_truncated_value(w_cubic);
    value::lemma_value_sign(window);
    value::lemma_value_sign(cubic::datagram());
    value::lemma_value_sign(difference);
    assert(!window.is_zero() && !cubic::datagram().is_zero()) by {
        value::lemma_rounding_error(false, cwnd as nat, 1, 0);
        value::lemma_rounding_error(false, MAX_DATAGRAM_SIZE as nat, 1, 0);
    }
    if step.neg {
        assert(step.truncated() == 0);
    } else {
        let (c, w) = (cwnd as real, value::value(w_cubic));
        assert(!difference.neg) by {
            if difference.neg {
                value::lemma_rounding_error(
                    true,
                    difference.mant,
                    window.mant,
                    difference.exp - window.exp,
                );
                let product = quotient.mant * cubic::datagram().mant;
                assert(product > 0) by (nonlinear_arith)
                    requires
                        product == quotient.mant * cubic::datagram().mant,
                        quotient.mant > 0,
                        cubic::datagram().mant > 0,
                ;
                value::lemma_rounding_error(true, product, 1, quotient.exp + cubic::datagram().exp);
            }
        }
        value::lemma_over_value(difference, window);
        value::lemma_times_value(quotient, cubic::datagram());
        value::lemma_truncated_value(step);
        let (cr, d, q, g, z) = (
            value::value(window),
            value::value(difference),
            value::value(quotient),
            value::value(cubic::datagram()),
            value::value(step),
        );
        let (gap, u) = (w - cr, value::unit_roundoff());
        assert(gap >= 0 as real) by (nonlinear_arith)
            requires
                d >= 0 as real,
                value::abs(d - gap) <= value::abs(gap) * u,
                u == 1 as real / 0x20_0000_0000_0000 as real,
        ;
        lemma_increment_bound(c, w, cr, d, q, g, z);
        let sum = cwnd + step.truncated();
        assert(sum as real <= w);
    }
}

/// Between the minimum window and the curve the window grows towards the curve and does
/// not pass it; on and above the curve it stays. Only W_est, where it is ahead of the
/// curve, lifts the window further, and then no further than to itself.
pub proof fn law_curves_bound_window(m: RecoveryModel, now: nat)
    requires
        2904 <= m.congestion_window <= usize::MAX,
    ensures
        ({
            let t = m.recovery_time(now);
            let w_cubic = m.cubic_state.w_cubic(t + m.min_rtt);
            let w_est = m.cubic_state.w_est(t, m.min_rtt);
            let bound = if w_est.exceeds(w_cubic) {
                w_est.clamped()
            } else {
                w_cubic.truncated()
            };
            m.congestion_window <= m.avoidance_window(now) <= recovery::max(
                m.congestion_window,
                bound,
            )
        }),
{
    let t = m.recovery_time(now);
    let w_cubic = m.cubic_state.w_cubic(t + m.min_rtt);
    if m.congestion_window < w_cubic.clamped() {
        lemma_window_stays_below_curve(w_cubic, m.congestion_window as usize);
    }
}

/// (W_cubic - cwnd) / cwnd packets, in bytes.
pub open spec fn real_increment(w_cubic: real, c: real) -> real {
    (w_cubic - c) / c * 1452 as real
}

/// How far the rounded increment may be off where the rounded curve is off by `slack`.
pub open spec fn increment_slack(w_cubic: real, c: real, slack: real) -> real {
    slack / c * 2904 as real + value::abs(real_increment(w_cubic, c)) / 0x4_0000_0000_0000 as real
        + 1 as real / 0x100_0000_0000 as real
}

/// The error of the rounded increment.
proof fn lemma_increment_near(
    c: real,
    w: real,
    wx: real,
    s: real,
    cr: real,
    d: real,
    q: real,
    g: real,
    z: real,
)
    requires
        c >= 1 as real,
        s >= 0 as real,
        value::abs(w - wx) <= s,
        value::is_close(cr, c),
        value::is_close(d, w - cr),
        value::is_close(q, d / cr),
        value::is_close(g, 1452 as real),
        value::is_close(z, q * g),
    ensures
        value::abs(z - real_increment(wx, c)) <= increment_slack(wx, c, s),
{
    let u = value::unit_roundoff();
    assert(u == 1 as real / 0x20_0000_0000_0000 as real);
    let (a, sc) = (wx - c, s / c);
    let (q0, e) = (a / c, sc + u);
    assert(sc * c == s && q0 * c == a && sc >= 0 as real) by (nonlinear_arith)
        requires
            sc == s / c,
            q0 == a / c,
            s >= 0 as real,
            c >= 1 as real,
    ;
    let (b, aa, aq) = (s + c * u, value::abs(a), value::abs(q0));
    value::lemma_abs_product(q0, c);
    assert(b == e * c && aa == aq * c && b >= 0 as real) by (nonlinear_arith)
        requires
            b == s + c * u,
            e == sc + u,
            sc * c == s,
            aa == aq * value::abs(c),
            c >= 1 as real,
            s >= 0 as real,
            u == 1 as real / 0x20_0000_0000_0000 as real,
    ;
    let wc = w - cr;
    assert(value::abs(wc - a) <= b && value::abs(cr - c) <= c * u);
    assert(value::abs(d - a) <= b * (101 as real / 100 as real) + aa * u) by (nonlinear_arith)
        requires
            value::abs(d - wc) <= value::abs(wc) * u,
            value::abs(wc - a) <= b,
            aa == value::abs(a),
            b >= 0 as real,
            u == 1 as real / 0x20_0000_0000_0000 as real,
    {
        assert(value::abs(wc) <= aa + b);
        assert(value::abs(wc) * u <= (aa + b) * u);
    }
    // The quotient by the rounded window.
    let y = d / cr;
    assert(cr > 0 as real && cr * (100 as real / 99 as real) >= c) by (nonlinear_arith)
        requires
            value::abs(cr - c) <= c * u,
            c >= 1 as real,
            u == 1 as real / 0x20_0000_0000_0000 as real,
    ;
    assert(y * cr == d) by (nonlinear_arith)
        requires
            y == d / cr,
            cr > 0 as real,
    ;
    value::lemma_abs_product(y, cr);
    let (ay, ad) = (value::abs(y), value::abs(d));
    assert(ay * c <= ad * (102 as real / 100 as real)) by (nonlinear_arith)
        requires
            ad == ay * value::abs(cr),
            cr > 0 as real,
            cr * (100 as real / 99 as real) >= c,
            ay >= 0 as real,
    {
        assert(ay * c <= ay * (cr * (100 as real / 99 as real)));
    }
    let f = y - q0;
    let move_c = y * (c - cr);
    assert(f * c == (d - a) + move_c) by (nonlinear_arith)
        requires
            f == y - q0,
            move_c == y * (c - cr),
            y * cr == d,
            q0 * c == a,
    ;
    value::lemma_abs_product(y, c - cr);
    value::lemma_abs_product(f, c);
    let ac = value::abs(c - cr);
    assert(value::abs(move_c) <= (ay * c) * u) by (nonlinear_arith)
        requires
            value::abs(move_c) == ay * ac,
            ac <= c * u,
            ay >= 0 as real,
    ;
    assert((ay * c) * u <= (aa + b) * (2 as real * u)) by (nonlinear_arith)
        requires
            ay * c <= ad * (102 as real / 100 as real),
            ad <= aa + b * (101 as real / 100 as real) + aa * u,
            aa >= 0 as real,
            b >= 0 as real,
            u == 1 as real / 0x20_0000_0000_0000 as real,
    ;
    let af = value::abs(f);
    assert(af <= e * (103 as real / 100 as real) + aq * (3 as real * u)) by (nonlinear_arith)
        requires
            af * c <= b * (101 as real / 100 as real) + aa * u + (aa + b) * (2 as real * u),
            b == e * c,
            aa == aq * c,
            c >= 1 as real,
            b >= 0 as real,
            u == 1 as real / 0x20_0000_0000_0000 as real,
    {
        let bound = e * (103 as real / 100 as real) + aq * (3 as real * u);
        assert(b * (2 as real * u) <= b * (2 as real / 100 as real));
        assert(af * c <= bound * c);
    }
    assert(e >= 0 as real);
    let h = q - q0;
    assert(value::abs(h) <= e * (104 as real / 100 as real) + aq * (5 as real * u))
        by (nonlinear_arith)
        requires
            h == q - q0,
            f == y - q0,
            af == value::abs(f),
            aq == value::abs(q0),
            af <= e * (103 as real / 100 as real) + aq * (3 as real * u),
            value::abs(q - y) <= value::abs(y) * u,
            e >= 0 as real,
            u == 1 as real / 0x20_0000_0000_0000 as real,
    {
        assert(value::abs(y) <= aq + af);
        assert(value::abs(y) <= 2 as real * aq + 2 as real * e);
        assert(value::abs(y) * u <= (2 as real * aq + 2 as real * e) * u);
    }
    let (p, goal) = (q * g, q0 * 1452 as real);
    assert(value::abs(p - goal) <= 1452 as real * (e * (105 as real / 100 as real) + aq * (
    13 as real / 2 as real * u))) by (nonlinear_arith)
        requires
            p == q * g,
            goal == q0 * 1452 as real,
            h == q - q0,
            aq == value::abs(q0),
            value::abs(h) <= e * (104 as real / 100 as real) + aq * (5 as real * u),
            value::abs(g - 1452 as real) <= value::abs(1452 as real) * u,
            e >= 0 as real,
            u == 1 as real / 0x20_0000_0000_0000 as real,
    {
        let k = g - 1452 as real;
        assert(p - goal == h * 1452 as real + q0 * k + h * k);
        value::lemma_abs_product(q0, k);
        value::lemma_abs_product(h, k);
        let (ah, ak) = (value::abs(h), value::abs(k));
        assert(aq * ak <= aq * (1452 as real * u));
        assert(ah * ak <= ah * (1452 as real * u));
        assert(ah <= 2 as real * e + aq / 100 as real);
        assert(ah * (1452 as real * u) <= (2 as real * e + aq / 100 as real) * (1452 as real * u));
    }
    assert(value::abs(z - goal) <= 1452 as real * (e * (108 as real / 100 as real) + aq * (
    8 as real * u))) by (nonlinear_arith)
        requires
            value::abs(z - p) <= value::abs(p) * u,
            value::abs(p - goal) <= 1452 as real * (e * (105 as real / 100 as real) + aq * (
            13 as real / 2 as real * u)),
            value::abs(goal) == 1452 as real * aq,
            aq >= 0 as real,
            e >= 0 as real,
            u == 1 as real / 0x20_0000_0000_0000 as real,
    {
        assert(value::abs(p) <= 1452 as real * (11 as real / 10 as real * aq + 2 as real * e));
        assert(value::abs(p) * u <= (1452 as real * (11 as real / 10 as real * aq + 2 as real * e))
            * u);
    }
    let inc = value::abs(goal);
    assert(1452 as real * (e * (108 as real / 100 as real) + aq * (8 as real * u)) <= sc
        * 2904 as real + inc / 0x4_0000_0000_0000 as real + 1 as real / 0x100_0000_0000 as real)
        by (nonlinear_arith)
        requires
            e == sc + u,
            inc == 1452 as real * aq,
            sc >= 0 as real,
            aq >= 0 as real,
            u == 1 as real / 0x20_0000_0000_0000 as real,
    ;
}

/// Whether the window `after` is the larger one of the window `before` and the integer part
/// of `target`, limited to the largest `usize`; `target` may be off by `slack`.
pub open spec fn is_lifted(before: nat, after: nat, target: real, slack: real) -> bool {
    &&& before <= after
    &&& after == before || after as real <= target + slack
    &&& after == usize::MAX || after as real + 1 as real > target - slack
}

/// Whether the window `after` is the window `before`, where it is on or above the curve, or
/// else, below the curve, greater by the integer part of (W_cubic - cwnd) / cwnd packets;
/// the curve may be off by `slack`.
pub open spec fn is_grown(before: nat, after: nat, curve: real, slack: real) -> bool {
    let c = before as real;
    let more = after as real - c;
    ||| after == before && (before == usize::MAX || c + 1 as real > curve - slack)
    ||| before == 0 && after == usize::MAX && curve + slack >= 1 as real
    ||| {
        &&& 0 < before < usize::MAX
        &&& c + 1 as real <= curve + slack
        &&& more >= 0 as real
        &&& after == before || more <= real_increment(curve, c) + increment_slack(curve, c, slack)
        &&& more >= usize::MAX as real || more + 1 as real > real_increment(curve, c)
            - increment_slack(curve, c, slack)
    }
}

proof fn lemma_lifted(before: nat, x: Number, target: real, slack: real)
    requires
        before <= usize::MAX,
        value::abs(value::value(x) - target) <= slack,
    ensures
        is_lifted(before, recovery::max(before, x.clamped()), target, slack),
{
    value::law_clamping_truncates(x);
}

proof fn lemma_grown(cwnd: usize, w_cubic: Number, curve: real, slack: real)
    requires
        value::abs(value::value(w_cubic) - curve) <= slack,
    ensures
        ({
            let after = if cwnd < w_cubic.clamped() {
                cwnd as nat + cubic::window_increment(w_cubic, cwnd as nat)
            } else {
                cwnd as nat
            };
            is_grown(cwnd as nat, after, curve, slack)
        }),
{
    value::law_clamping_truncates(w_cubic);
    if cwnd < w_cubic.clamped() {
        let c = cwnd as real;
        assert(w_cubic.clamped() as real >= c + 1 as real);
        if cwnd > 0 {
            let window = Number::integer(cwnd as nat);
            let difference = w_cubic.minus(window);
            let quotient = difference.over(window);
            let step = quotient.times(cubic::datagram());
            value::lemma_integer_value(cwnd as nat);
            value::lemma_integer_value(MAX_DATAGRAM_SIZE as nat);
            value::lemma_rounding_error(false, cwnd as nat, 1, 0);
            value::lemma_minus_value(w_cubic, window);
            value::lemma_over_value(difference, window);
            value::lemma_times_value(quotient, cubic::datagram());
            lemma_increment_near(
                c,
                value::value(w_cubic),
                curve,
                slack,
                value::value(window),
                value::value(difference),
                value::value(quotient),
                value::value(cubic::datagram()),
                value::value(step),
            );
            value::law_clamping_truncates(step);
        }
    }
}

/// In congestion avoidance the window follows the curves of the RFC, whatever else the
/// state holds: where W_est(t) is ahead of W_cubic(t + RTT) it becomes W_est(t), unless it
/// is larger already, and elsewhere it grows by (W_cubic(t + RTT) - cwnd) / cwnd packets,
/// unless it is on or above the curve. Where the two are closer to each other than the
/// rounding errors, either may be taken. Without a round trip time W_est has no bound, but
/// for the moment at which the period starts.
pub proof fn law_acknowledgement_follows_curves(
    m: RecoveryModel,
    epoch: Epoch,
    time_sent: nat,
    size: nat,
    now: nat,
    hystart_ack: Option<HystartAck>,
)
    requires
        m.congestion_recovery_start_time matches Some(start) ==> start < time_sent,
        !m.app_limited,
        m.ssthresh <= m.congestion_window <= usize::MAX,
        !m.cubic_state.w_max.neg,
        !m.cubic_state.k.neg,
        hystart_ack is None || !m.hystart.enabled || !m.hystart.in_lss || epoch
            != packet::EPOCH_APPLICATION,
    ensures
        ({
            let acked = m.after_acked(epoch, time_sent, size, now, hystart_ack);
            &&& acked.congestion_recovery_start_time is Some
            &&& ({
                let start = acked.congestion_recovery_start_time->0;
                let t: nat = if now >= start {
                    (now - start) as nat
                } else {
                    0
                };
                let (ts, tr, ahead) = (
                    curve::real_seconds(t),
                    curve::real_seconds(m.min_rtt),
                    curve::real_seconds(t + m.min_rtt),
                );
                let (w, k) = (
                    value::value(acked.cubic_state.w_max),
                    value::value(acked.cubic_state.k),
                );
                let (w_cubic, off) = (
                    curve::real_w_cubic(w, k, ahead),
                    curve::w_cubic_slack(w, k, ahead),
                );
                let (before, after) = (m.congestion_window, acked.congestion_window);
                if m.min_rtt > 0 {
                    let (w_est, off_est) = (
                        curve::real_w_est(w, ts, tr),
                        curve::w_est_slack(w, ts, tr),
                    );
                    ||| w_est + off_est > w_cubic - off && is_lifted(before, after, w_est, off_est)
                    ||| w_est - off_est <= w_cubic + off && is_grown(before, after, w_cubic, off)
                } else if t > 0 {
                    after == usize::MAX
                } else {
                    is_grown(before, after, w_cubic, off)
                }
            })
        }),
{
    let acked = m.after_acked(epoch, time_sent, size, now, hystart_ack);
    let state = acked.cubic_state;
    let start = acked.congestion_recovery_start_time->0;
    let t: nat = if now >= start {
        (now - start) as nat
    } else {
        0
    };
    if m.congestion_recovery_start_time is None {
        value::lemma_integer_value(m.congestion_window);
    }
    let cwnd = m.congestion_window as usize;
    let (wc, we) = (state.w_cubic(t + m.min_rtt), state.w_est(t, m.min_rtt));
    let (w, k) = (value::value(state.w_max), value::value(state.k));
    let ahead = curve::real_seconds(t + m.min_rtt);
    let (w_cubic, off) = (curve::real_w_cubic(w, k, ahead), curve::w_cubic_slack(w, k, ahead));
    curve::law_w_cubic_is_the_curve(state, t + m.min_rtt);
    curve::law_w_est_is_the_line(state, t, m.min_rtt);
    lemma_grown(cwnd, wc, w_cubic, off);
    assert(acked.congestion_window == cubic::next_window(wc, we, m.congestion_window));
    if let Extended::Finite(x) = we {
        let (ts, tr) = (curve::real_seconds(t), curve::real_seconds(m.min_rtt));
        value::law_comparison_is_by_value(wc, x);
        lemma_lifted(
            m.congestion_window,
            x,
            curve::real_w_est(w, ts, tr),
            curve::w_est_slack(w, ts, tr),
        );
    }
}

/// The curve that congestion avoidance follows is the one of the recovery period that the
/// connection is in. Where there is none, a period starts with the acknowledgement, on a
/// plateau at the window: K is 0 and w_max is the window.
pub proof fn law_avoidance_starts_a_period(
    m: RecoveryModel,
    epoch: Epoch,
    time_sent: nat,
    size: nat,
    now: nat,
    hystart_ack: Option<HystartAck>,
)
    requires
        m.congestion_recovery_start_time matches Some(start) ==> start < time_sent,
        !m.app_limited,
        m.ssthresh <= m.congestion_window,
    ensures
        ({
            let acked = m.after_acked(epoch, time_sent, size, now, hystart_ack);
            let (old_state, state) = (m.cubic_state, acked.cubic_state);
            &&& acked.congestion_recovery_start_time == if m.congestion_recovery_start_time is Some {
                m.congestion_recovery_start_time
            } else {
                Some(now)
            }
            &&& m.congestion_recovery_start_time is Some ==> state == old_state
            &&& m.congestion_recovery_start_time is None ==> {
                &&& state.k == Number::zero()
                &&& !state.w_max.neg
                &&& value::rounds_to(m.congestion_window as real, state.w_max)
                &&& state.w_last_max == old_state.w_last_max
                &&& state.last_sent_time == old_state.last_sent_time
            }
        }),
{
    value::lemma_integer_value(m.congestion_window);
}

/// An acknowledgement takes the packet out of the bytes in flight, of which there are never
/// less than none, and leaves what it does not speak of: HyStart++, the application limit
/// and the round trip time always, and the threshold unless HyStart++ sets it in slow start.
pub proof fn law_acknowledgement_takes_packet_out_of_flight(
    m: RecoveryModel,
    epoch: Epoch,
    time_sent: nat,
    size: nat,
    now: nat,
    hystart_ack: Option<HystartAck>,
)
    ensures
        ({
            let acked = m.after_acked(epoch, time_sent, size, now, hystart_ack);
            &&& m.bytes_in_flight <= size ==> acked.bytes_in_flight == 0
            &&& m.bytes_in_flight >= size ==> acked.bytes_in_flight + size == m.bytes_in_flight
            &&& acked.hystart == m.hystart
            &&& acked.app_limited == m.app_limited
            &&& acked.min_rtt == m.min_rtt
            &&& m.ssthresh <= m.congestion_window || !m.hystart.enabled || epoch
                != packet::EPOCH_APPLICATION ==> acked.ssthresh == m.ssthresh
        }),
{
}

/// The acknowledgement of a packet that was sent no later than the start of the recovery
/// period, or under an application limit, changes nothing but the bytes in flight.
pub proof fn law_acknowledgement_without_growth(
    m: RecoveryModel,
    epoch: Epoch,
    time_sent: nat,
    size: nat,
    now: nat,
    hystart_ack: Option<HystartAck>,
)
    requires
        m.app_limited || (m.congestion_recovery_start_time matches Some(start) && time_sent
            <= start),
    ensures
        ({
            let acked = m.after_acked(epoch, time_sent, size, now, hystart_ack);
            acked == (RecoveryModel { bytes_in_flight: acked.bytes_in_flight, ..m })
        }),
{
}

/// In slow start the window grows by the size of the packet, or HyStart++, where it is
/// enabled and for packets of the application, sets the window and the threshold. The curve
/// and the recovery period stay.
pub proof fn law_slow_start(
    m: RecoveryModel,
    epoch: Epoch,
    time_sent: nat,
    size: nat,
    now: nat,
    hystart_ack: Option<HystartAck>,
)
    requires
        m.congestion_recovery_start_time matches Some(start) ==> start < time_sent,
        !m.app_limited,
        m.congestion_window < m.ssthresh,
    ensures
        ({
            let acked = m.after_acked(epoch, time_sent, size, now, hystart_ack);
            &&& acked.cubic_state == m.cubic_state
            &&& acked.congestion_recovery_start_time == m.congestion_recovery_start_time
            &&& !m.hystart.enabled || epoch != packet::EPOCH_APPLICATION ==> {
                &&& acked.congestion_window == m.congestion_window + size
                &&& acked.ssthresh == m.ssthresh
            }
            &&& m.hystart.enabled && epoch == packet::EPOCH_APPLICATION ==> (
            hystart_ack matches Some(ack) ==> {
                &&& acked.congestion_window == ack.congestion_window
                &&& acked.ssthresh == ack.ssthresh
            })
        }),
{
}

/// In Limited Slow Start the window after an acknowledgement is the larger one of the window
/// of HyStart++ and the window without it; all else is as it is without it. Otherwise the
/// answer of HyStart++ does not matter in congestion avoidance.
pub proof fn law_limited_slow_start_takes_larger_window(
    m: RecoveryModel,
    epoch: Epoch,
    time_sent: nat,
    size: nat,
    now: nat,
    ack: HystartAck,
)
    requires
        m.congestion_recovery_start_time matches Some(start) ==> start < time_sent,
        !m.app_limited,
        m.ssthresh <= m.congestion_window,
    ensures
        ({
            let plain = m.after_acked(epoch, time_sent, size, now, None);
            let acked = m.after_acked(epoch, time_sent, size, now, Some(ack));
            let limited = m.hystart.enabled && m.hystart.in_lss && epoch
                == packet::EPOCH_APPLICATION;
            &&& acked == (RecoveryModel { congestion_window: acked.congestion_window, ..plain })
            &&& plain.congestion_window <= acked.congestion_window
            &&& limited ==> {
                &&& ack.congestion_window <= acked.congestion_window
                &&& acked.congestion_window == plain.congestion_window || acked.congestion_window
                    == ack.congestion_window
            }
            &&& !limited ==> acked == plain
        }),
{
}

/// What the window of an acknowledged packet becomes in congestion avoidance depends on the
/// window, the curve, the recovery period and the times alone: not on the size of the
/// packet, on when it was sent after the start of the period, on the bytes in flight, on the
/// threshold below the window, or on when a packet was last sent.
pub proof fn law_avoidance_depends_on_curve_alone(
    m: RecoveryModel,
    n: RecoveryModel,
    epoch: Epoch,
    time_sent: nat,
    size: nat,
    epoch2: Epoch,
    time_sent2: nat,
    size2: nat,
    now: nat,
)
    requires
        m.congestion_recovery_start_time matches Some(start) ==> start < time_sent && start
            < time_sent2,
        !m.app_limited && !n.app_limited,
        m.ssthresh <= m.congestion_window,
        n.ssthresh <= n.congestion_window,
        n.congestion_window == m.congestion_window,
        n.congestion_recovery_start_time == m.congestion_recovery_start_time,
        n.cubic_state.k == m.cubic_state.k,
        n.cubic_state.w_max == m.cubic_state.w_max,
        n.min_rtt == m.min_rtt,
    ensures
        m.after_acked(epoch, time_sent, size, now, None).congestion_window == n.after_acked(
            epoch2,
            time_sent2,
            size2,
            now,
            None,
        ).congestion_window,
{
}

/// HyStart++ is told of the acknowledgement of a packet of the application that may grow the
/// window, in slow start and while it is in Limited Slow Start, at any window.
pub proof fn law_hystart_is_consulted(m: RecoveryModel, epoch: Epoch, time_sent: nat)
    ensures
        m.consults_hystart(epoch, time_sent) <==> {
            &&& m.hystart.enabled
            &&& epoch == packet::EPOCH_APPLICATION
            &&& !m.app_limited
            &&& m.congestion_recovery_start_time matches Some(start) ==> start < time_sent
            &&& m.congestion_window < m.ssthresh || m.hystart.in_lss
        },
{
}

/// A packet counts as sent in recovery when a recovery period has begun and the packet was
/// sent no later than its start.
pub proof fn law_recovery_is_up_to_the_start(m: RecoveryModel, time_sent: nat)
    ensures
        m.congestion_recovery_start_time is None ==> !m.in_congestion_recovery(time_sent),
        m.congestion_recovery_start_time matches Some(start) ==> (m.in_congestion_recovery(
            time_sent,
        ) <==> time_sent <= start),
{
}

/// Whether `cut` is the larger one of the minimum window and seven tenths of the window `c`,
/// to the byte below. Of a multiple of ten, for which seven tenths are whole, one byte less
/// may be left. From `2^48` bytes on the rounding may add an error of a `2^48`th part.
pub open spec fn is_cut(c: nat, cut: nat) -> bool {
    let slack = c as int / 0x1_0000_0000_0000;
    &&& 2904 <= cut
    &&& 7 * c - 10 - slack <= 10 * cut
    &&& cut == 2904 || 10 * cut <= 7 * c + slack
    &&& c < 0x1_0000_0000_0000 && c % 10 != 0 ==> cut == if 7 * c / 10 >= 2904 {
        7 * c / 10
    } else {
        2904
    }
}

proof fn lemma_cut(c: nat)
    requires
        c <= usize::MAX,
    ensures
        is_cut(c, cubic::reduced_window(c)),
{
    law_reduction_is_seven_tenths(c as usize);
    let cut = cubic::reduced_window(c);
    if c < 0x1_0000_0000_0000 && c % 10 != 0 {
        let (q, r) = (7 * c / 10, 7 * c % 10);
        assert(7 * c == 10 * q + r);
        assert(r != 0);
    }
}

/// A congestion event that begins a recovery period sets the window and the threshold to
/// seven tenths of the window, but no less than the minimum window, whatever else the state
/// holds. The curve gets its plateau at the window before, and K is the time of the climb to
/// it. All else stays.
pub proof fn law_congestion_event_cuts_window(m: RecoveryModel, time_sent: nat, now: nat)
    requires
        m.congestion_recovery_start_time matches Some(start) ==> start < time_sent,
        m.congestion_window <= usize::MAX,
    ensures
        ({
            let lost = m.after_congestion_event(time_sent, now);
            let (old_state, state) = (m.cubic_state, lost.cubic_state);
            let climb = value::value(state.w_max) / 1452 as real * (3 as real / 4 as real);
            &&& is_cut(m.congestion_window, lost.congestion_window)
            &&& lost.ssthresh == lost.congestion_window
            &&& lost.congestion_recovery_start_time == Some(now)
            &&& !state.w_max.neg
            &&& value::rounds_to(m.congestion_window as real, state.w_max)
            &&& !state.k.neg
            &&& value::abs(value::cubed(value::value(state.k)) - climb) <= climb
                / 0x1_0000_0000_0000 as real
            &&& state.w_last_max == old_state.w_max
            &&& state.last_sent_time == old_state.last_sent_time
            &&& lost.bytes_in_flight == m.bytes_in_flight
            &&& lost.app_limited == m.app_limited
            &&& lost.hystart == m.hystart
            &&& lost.min_rtt == m.min_rtt
        }),
{
    lemma_cut(m.congestion_window);
    value::lemma_integer_value(m.congestion_window);
    let state = m.after_congestion_event(time_sent, now).cubic_state;
    curve::law_k_is_the_time_of_the_climb(state);
}

/// The loss of a packet that was sent no later than the start of the recovery period changes
/// nothing.
pub proof fn law_loss_in_recovery_changes_nothing(
    m: RecoveryModel,
    start: nat,
    time_sent: nat,
    now: nat,
)
    requires
        m.congestion_recovery_start_time == Some(start),
        time_sent <= start,
    ensures
        m.after_congestion_event(time_sent, now) == m,
{
}

/// A collapse sets the window to the minimum window and the threshold to seven tenths of the
/// window before, but no less than the minimum window, whatever else the state holds. It ends
/// the recovery period, and the window before is kept as both plateaus. All else stays.
pub proof fn law_collapse_cuts_threshold(m: RecoveryModel)
    requires
        m.congestion_window <= usize::MAX,
    ensures
        ({
            let fallen = m.after_collapse();
            let (old_state, state) = (m.cubic_state, fallen.cubic_state);
            &&& fallen.congestion_window == 2904
            &&& is_cut(m.congestion_window, fallen.ssthresh)
            &&& fallen.congestion_recovery_start_time is None
            &&& !state.w_max.neg
            &&& value::rounds_to(m.congestion_window as real, state.w_max)
            &&& state.w_last_max == state.w_max
            &&& state.k == old_state.k
            &&& state.last_sent_time == old_state.last_sent_time
            &&& fallen.bytes_in_flight == m.bytes_in_flight
            &&& fallen.app_limited == m.app_limited
            &&& fallen.hystart == m.hystart
            &&& fallen.min_rtt == m.min_rtt
        }),
{
    lemma_cut(m.congestion_window);
    value::lemma_integer_value(m.congestion_window);
}

/// Two roundings of one value have one value.
proof fn lemma_rounding_is_unique(x: real, r: Number, r1: Number)
    requires
        value::rounds_to(x, r),
        value::rounds_to(x, r1),
    ensures
        value::value(r) == value::value(r1),
{
    value::lemma_rounding_ordered(x, r, x, r1);
    value::lemma_rounding_ordered(x, r1, x, r);
}

/// To the byte, the cut window of a congestion event and the threshold of a collapse are the
/// integer part of the rounded product of the rounded window and the rounded factor 0.7, but
/// no less than the minimum window.
pub proof fn law_cut_is_the_rounded_product(
    m: RecoveryModel,
    time_sent: nat,
    now: nat,
    window: Number,
    factor: Number,
    product: Number,
)
    requires
        m.congestion_recovery_start_time matches Some(start) ==> start < time_sent,
        value::rounds_to(m.congestion_window as real, window),
        value::rounds_to(7 as real / 10 as real, factor),
        value::rounds_to(value::value(window) * value::value(factor), product),
    ensures
        ({
            let cut = m.after_congestion_event(time_sent, now).congestion_window;
            let p = value::value(product);
            &&& m.after_collapse().ssthresh == cut
            &&& 2904 <= cut
            &&& cut == 2904 || cut as real <= p
            &&& cut == usize::MAX || p < cut as real + 1 as real
        }),
{
    let c = m.congestion_window;
    value::lemma_integer_value(c);
    lemma_rounding_is_unique(c as real, window, Number::integer(c));
    value::lemma_ratio_value(7, 10);
    lemma_rounding_is_unique(7 as real / 10 as real, factor, cubic::beta());
    value::lemma_times_value(Number::integer(c), cubic::beta());
    let rounded = Number::integer(c).times(cubic::beta());
    lemma_rounding_is_unique(
        value::value(window) * value::value(factor),
        product,
        rounded,
    );
    value::law_clamping_truncates(rounded);
}

/// A packet that is sent is added to the bytes in flight and sets the time of the last one.
/// The start of the recovery period moves by the time since the last packet, and only where
/// nothing was in flight; with bytes in flight, or when no packet was sent before, it stays.
/// All else stays.
pub proof fn law_sending_moves_start_after_pause_alone(
    m: RecoveryModel,
    sent_bytes: nat,
    now: nat,
)
    ensures
        ({
            let sent = m.after_sent(sent_bytes, now);
            let (old_start, start) = (
                m.congestion_recovery_start_time,
                sent.congestion_recovery_start_time,
            );
            &&& m.bytes_in_flight > 0 ==> start == old_start
            &&& m.cubic_state.last_sent_time is None ==> start == old_start
            &&& old_start is None ==> start is None
            &&& m.bytes_in_flight == 0 ==> (m.cubic_state.last_sent_time matches Some(last) ==> (
            old_start matches Some(s) ==> {
                &&& last <= now ==> start is Some && start->0 + last == s + now
                &&& now <= last ==> start == old_start
            }))
            &&& sent.bytes_in_flight == m.bytes_in_flight + sent_bytes
            &&& sent.cubic_state.last_sent_time == Some(now)
            &&& sent.cubic_state.k == m.cubic_state.k
            &&& sent.cubic_state.w_max == m.cubic_state.w_max
            &&& sent.cubic_state.w_last_max == m.cubic_state.w_last_max
            &&& sent.congestion_window == m.congestion_window
            &&& sent.ssthresh == m.ssthresh
            &&& sent.app_limited == m.app_limited
            &&& sent.hystart == m.hystart
            &&& sent.min_rtt == m.min_rtt
        }),
{
}

/// Packets can be sent as long as the bytes in flight fit in a `usize` and the start of the
/// recovery period that follows is a point in time; that start is the one of the state
/// after.
pub proof fn law_sending_is_limited_by_representation(m: RecoveryModel, sent_bytes: nat, now: nat)
    requires
        m.congestion_recovery_start_time matches Some(start) ==> start
            <= 18446744073709551615999999999,
    ensures
        m.can_send(sent_bytes, now) <==> {
            let sent = m.after_sent(sent_bytes, now);
            &&& sent.bytes_in_flight <= usize::MAX
            &&& sent.congestion_recovery_start_time matches Some(start) ==> start
                <= 18446744073709551615999999999
        },
{
}

/// Acknowledgements can be taken as long as the window and the time ahead that follow can be
/// represented: always where the window may not grow or HyStart++ sets it in slow start.
pub proof fn law_acknowledging_is_limited_by_representation(
    m: RecoveryModel,
    epoch: Epoch,
    time_sent: nat,
    size: nat,
    now: nat,
)
    ensures
        ({
            let acked = m.after_acked(epoch, time_sent, size, now, None);
            let blocked = m.app_limited || (m.congestion_recovery_start_time matches Some(start)
                && time_sent <= start);
            let hystart = m.hystart.enabled && epoch == packet::EPOCH_APPLICATION;
            &&& blocked ==> m.can_ack(epoch, time_sent, size, now)
            &&& !blocked && m.congestion_window < m.ssthresh ==> (m.can_ack(
                epoch,
                time_sent,
                size,
                now,
            ) <==> hystart || m.congestion_window + size <= usize::MAX)
            &&& !blocked && m.ssthresh <= m.congestion_window ==> (m.can_ack(
                epoch,
                time_sent,
                size,
                now,
            ) <==> {
                let start = acked.congestion_recovery_start_time->0;
                let t: int = if now >= start {
                    now - start
                } else {
                    0
                };
                &&& t + m.min_rtt <= 18446744073709551615999999999
                &&& acked.congestion_window <= usize::MAX
            })
        }),
{
}

/// A new connection has a window of ten packets and no threshold, nothing in flight, no
/// recovery period, no curve and no round trip time, and is not limited by the application.
pub proof fn law_new_connection(hystart_enabled: bool)
    ensures
        ({
            let m = RecoveryModel::initial(hystart_enabled);
            &&& m.congestion_window == 14520
            &&& m.ssthresh == usize::MAX
            &&& m.bytes_in_flight == 0
            &&& m.min_rtt == 0
            &&& !m.app_limited
            &&& m.hystart.enabled == hystart_enabled
            &&& !m.hystart.in_lss
            &&& m.congestion_recovery_start_time is None
            &&& m.cubic_state == cubic::StateModel::initial()
            &&& value::value(m.cubic_state.k) == 0 as real
            &&& value::value(m.cubic_state.w_max) == 0 as real
            &&& value::value(m.cubic_state.w_last_max) == 0 as real
            &&& m.cubic_state.last_sent_time is None
        }),
{
    value::lemma_value_sign(Number::zero());
}

/// The time from one point to another is their distance, and none where the other is not
/// later.
pub proof fn law_elapsed_is_the_distance(from: nat, to: nat)
    ensures
        from <= to ==> from + time::elapsed(from, to) == to,
        to <= from ==> time::elapsed(from, to) == 0,
        time::max_nanos() == 18446744073709551615999999999,
{
}

} // verus!
