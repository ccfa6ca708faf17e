//! What holds of every connection, on some.

use cubic::packet::{EPOCH_APPLICATION, EPOCH_HANDSHAKE, EPOCH_INITIAL};
use cubic::recovery::cubic::{
    can_ack, can_send, collapse_cwnd, congestion_event, consults_hystart, on_packet_acked,
    on_packet_sent, Extended,
};
use cubic::recovery::{
    reno, HystartAck, Recovery, Sent, INITIAL_WINDOW, MAX_DATAGRAM_SIZE, MINIMUM_WINDOW,
};
use cubic::time::{Duration, Instant};

fn ms(t: u64) -> Instant {
    Instant::new(Duration::from_millis(t))
}

fn sent(t: u64, size: usize) -> Sent {
    Sent { time_sent: ms(t), size }
}

/// A connection without HyStart++.
fn connection() -> Recovery {
    Recovery::new(false)
}

/// A connection with a window of `cwnd` bytes that has lost a packet at 1 s, with a
/// round trip time of 100 ms.
fn recovering(cwnd: usize) -> Recovery {
    let mut r = connection();
    r.congestion_window = cwnd;
    r.min_rtt = Duration::from_millis(100);
    on_packet_sent(&mut r, 20000, ms(900));
    congestion_event(&mut r, ms(900), EPOCH_APPLICATION, ms(1000));
    r
}

fn bits(x: Extended<cubic::float::Float>) -> u64 {
    match x {
        Extended::Finite(x) => x.to_bits(),
        other => panic!("not finite: {:?}", other),
    }
}

#[test]
fn new_connections_are_in_slow_start() {
    let r = Recovery::new(true);
    assert_eq!(r.cwnd(), 14520);
    assert_eq!(r.cwnd(), INITIAL_WINDOW);
    assert_eq!(r.ssthresh, usize::MAX);
    assert!(r.hystart.enabled && !r.hystart.in_lss);
    assert!(r.congestion_recovery_start_time.is_none());
    assert!(!r.in_congestion_recovery(ms(0)));
    assert_eq!(MINIMUM_WINDOW, 2904);
    assert_eq!(MAX_DATAGRAM_SIZE, 1452);
}

#[test]
fn the_window_keeps_to_the_minimum() {
    let mut r = connection();
    for i in 1..20 {
        congestion_event(&mut r, ms(1000 * i), EPOCH_APPLICATION, ms(1000 * i));
        assert!(r.cwnd() >= MINIMUM_WINDOW);
    }
    assert_eq!(r.cwnd(), MINIMUM_WINDOW);
    assert_eq!(r.ssthresh, MINIMUM_WINDOW);
    collapse_cwnd(&mut r);
    assert_eq!(r.cwnd(), MINIMUM_WINDOW);
    assert_eq!(r.ssthresh, MINIMUM_WINDOW);
}

#[test]
fn a_period_has_one_reduction() {
    let mut r = connection();
    assert!(!congestion_event(&mut r, ms(900), EPOCH_APPLICATION, ms(1000)));
    assert_eq!(r.cwnd(), 10164);
    // Lost packets that were sent up to the start of the period.
    congestion_event(&mut r, ms(950), EPOCH_APPLICATION, ms(1050));
    congestion_event(&mut r, ms(1000), EPOCH_APPLICATION, ms(1100));
    assert_eq!(r.cwnd(), 10164);
    assert!(r.in_congestion_recovery(ms(1000)));
    assert!(!r.in_congestion_recovery(ms(1001)));
    // One that was sent later.
    congestion_event(&mut r, ms(1001), EPOCH_APPLICATION, ms(1200));
    assert_eq!(r.cwnd(), 7114);
    assert!(r.in_congestion_recovery(ms(1200)));
}

#[test]
fn recovery_does_not_grow_the_window() {
    let mut r = recovering(14520);
    on_packet_acked(&mut r, EPOCH_APPLICATION, &sent(1000, 1200), ms(3000), None);
    assert_eq!(r.cwnd(), 10164);
    assert_eq!(r.ssthresh, 10164);
    assert_eq!(r.bytes_in_flight, 18800);
    on_packet_acked(&mut r, EPOCH_APPLICATION, &sent(1001, 1200), ms(3000), None);
    assert!(r.cwnd() > 10164);
}

#[test]
fn a_collapse_restarts_slow_start() {
    let mut r = recovering(145200);
    collapse_cwnd(&mut r);
    assert_eq!(r.cwnd(), MINIMUM_WINDOW);
    assert_eq!(r.ssthresh, 71148);
    assert!(!r.in_congestion_recovery(ms(1000)));
    on_packet_acked(&mut r, EPOCH_APPLICATION, &sent(900, 1200), ms(1100), None);
    assert_eq!(r.cwnd(), MINIMUM_WINDOW + 1200);
}

#[test]
fn what_is_acknowledged_is_not_in_flight() {
    let mut r = connection();
    on_packet_sent(&mut r, 1200, ms(1));
    on_packet_sent(&mut r, 700, ms(2));
    assert_eq!(r.bytes_in_flight, 1900);
    on_packet_acked(&mut r, EPOCH_INITIAL, &sent(2, 700), ms(50), None);
    assert_eq!(r.bytes_in_flight, 1200);
    // More than is in flight.
    on_packet_acked(&mut r, EPOCH_INITIAL, &sent(1, 1300), ms(60), None);
    assert_eq!(r.bytes_in_flight, 0);
}

#[test]
fn a_pause_is_not_recovery_time() {
    let mut r = recovering(14520);
    let p = sent(1500, 20000);
    r.app_limited = true;
    on_packet_acked(&mut r, EPOCH_APPLICATION, &p, ms(1600), None);
    r.app_limited = false;
    assert_eq!(r.bytes_in_flight, 0);
    // The last packet was sent at 0.9 s; the next one leaves at 5 s.
    on_packet_sent(&mut r, 1000, ms(5000));
    assert!(r.in_congestion_recovery(ms(5100)));
    assert!(!r.in_congestion_recovery(ms(5101)));
    // With bytes in flight there is no pause.
    on_packet_sent(&mut r, 1000, ms(9000));
    assert!(r.in_congestion_recovery(ms(5100)));
    assert!(!r.in_congestion_recovery(ms(5101)));
}

#[test]
fn acknowledgements_keep_the_window() {
    let mut r = recovering(145200);
    let mut window = r.cwnd();
    for i in 0..200 {
        on_packet_acked(&mut r, EPOCH_APPLICATION, &sent(1100 + i, 1200), ms(1200 + 40 * i), None);
        assert!(r.cwnd() >= window);
        window = r.cwnd();
    }
}

#[test]
fn reductions_are_seven_tenths() {
    for (cwnd, cut) in [
        (14520, 10164),
        (145200, 101640),
        (100, 2904),
        (4148, 2904),
        (4150, 2905),
        (1_000_000_007, 700_000_004),
    ] {
        let mut r = connection();
        r.congestion_window = cwnd;
        congestion_event(&mut r, ms(1), EPOCH_APPLICATION, ms(1));
        assert_eq!(r.cwnd(), cut);
        assert_eq!(r.ssthresh, cut);
    }
}

#[test]
fn slow_start_grows_by_the_packet_size() {
    let mut r = connection();
    on_packet_acked(&mut r, EPOCH_APPLICATION, &sent(1, 1200), ms(2), None);
    assert_eq!(r.cwnd(), 15720);
    // HyStart++ is asked about packets of the application alone.
    let mut r = Recovery::new(true);
    assert!(!consults_hystart(&r, EPOCH_INITIAL, &sent(1, 1200)));
    assert!(!consults_hystart(&r, EPOCH_HANDSHAKE, &sent(1, 1200)));
    assert!(consults_hystart(&r, EPOCH_APPLICATION, &sent(1, 1200)));
    on_packet_acked(&mut r, EPOCH_HANDSHAKE, &sent(1, 1200), ms(2), None);
    assert_eq!(r.cwnd(), 15720);
}

#[test]
fn hystart_sets_window_and_threshold_in_slow_start() {
    let mut r = Recovery::new(true);
    let answer = HystartAck { congestion_window: 15000, ssthresh: 15000 };
    on_packet_acked(&mut r, EPOCH_APPLICATION, &sent(1, 1200), ms(2), Some(answer));
    assert_eq!(r.cwnd(), 15000);
    assert_eq!(r.ssthresh, 15000);
    // At the threshold, outside of Limited Slow Start, it is not asked.
    assert!(!consults_hystart(&r, EPOCH_APPLICATION, &sent(2, 1200)));
    assert!(congestion_event(&mut r, ms(3), EPOCH_APPLICATION, ms(3)));
    assert!(!congestion_event(&mut r, ms(3), EPOCH_APPLICATION, ms(4)));
    assert!(!congestion_event(&mut r, ms(5), EPOCH_HANDSHAKE, ms(5)));
}

#[test]
fn limited_slow_start_takes_the_larger_window() {
    for (lss, window) in [(9000, 10164), (12000, 12000)] {
        let mut r = Recovery::new(true);
        r.min_rtt = Duration::from_millis(100);
        congestion_event(&mut r, ms(1000), EPOCH_APPLICATION, ms(1000));
        r.hystart.in_lss = true;
        let p = sent(1001, 1200);
        assert!(consults_hystart(&r, EPOCH_APPLICATION, &p));
        let answer = HystartAck { congestion_window: lss, ssthresh: 7 };
        on_packet_acked(&mut r, EPOCH_APPLICATION, &p, ms(1001), Some(answer));
        assert!(r.cwnd() >= window && r.cwnd() <= window + 100);
        // The threshold stays.
        assert_eq!(r.ssthresh, 10164);
    }
}

#[test]
fn the_application_limit_keeps_the_window() {
    let mut r = connection();
    r.app_limited = true;
    on_packet_sent(&mut r, 2000, ms(1));
    on_packet_acked(&mut r, EPOCH_APPLICATION, &sent(1, 1200), ms(2), None);
    assert_eq!(r.cwnd(), INITIAL_WINDOW);
    assert_eq!(r.ssthresh, usize::MAX);
    assert_eq!(r.bytes_in_flight, 800);
}

#[test]
fn the_curve_runs_from_the_cut_window_to_the_old_one() {
    for cwnd in [14520usize, 145200, 1_234_567] {
        let r = recovering(cwnd);
        let k = f64::from_bits(r.cubic_state.cubic_k().to_bits());
        let w = |nanos: u64| f64::from_bits(r.cubic_state.w_cubic(Duration::from_nanos(nanos)).to_bits());
        assert!((w(0) - 0.7 * cwnd as f64).abs() < 1e-6);
        assert!((w((k * 1e9) as u64) - cwnd as f64).abs() < 1e-6);
        // It rises all the way.
        for i in 0..300 {
            assert!(w(i * 50_000_000) <= w(i * 50_000_000 + 1));
            assert!(w(i * 50_000_000) < w((i + 1) * 50_000_000) || (i as f64 * 0.05 - k).abs() < 0.1);
        }
        // The plateau is at the old window.
        assert!(w((k * 5e8) as u64) < cwnd as f64);
        assert!(w((k * 2e9) as u64) > cwnd as f64);
    }
}

#[test]
fn k_of_ten_packets() {
    // cbrt(10 * 0.3 / 0.4) = cbrt(7.5)
    let k = recovering(14520).cubic_state.cubic_k();
    assert_eq!(k.to_bits(), libm::cbrt(10.0 * (1.0 - 0.7) / 0.4).to_bits());
    assert!((f64::from_bits(k.to_bits()) - 1.957433820584443).abs() < 1e-12);
}

#[test]
fn the_friendly_window_rises_from_the_cut_window() {
    let r = recovering(14520);
    let rtt = Duration::from_millis(100);
    let w = |millis: u64| f64::from_bits(bits(r.cubic_state.w_est(Duration::from_millis(millis), rtt)));
    assert!((w(0) - 10164.0).abs() < 1e-6);
    // In one round trip it gains 3 * 0.3 / 1.7 packets.
    assert!((w(100) - w(0) - 1452.0 * 0.9 / 1.7).abs() < 1e-6);
    for i in 0..100 {
        assert!(w(10 * i) < w(10 * i + 10));
    }
}

#[test]
fn the_window_stays_below_the_curve() {
    let mut r = recovering(14_520_000);
    for i in 0..400u64 {
        let now = 1100 + 50 * i;
        let before = r.cwnd();
        on_packet_acked(&mut r, EPOCH_APPLICATION, &sent(now - 50, 1200), ms(now), None);
        let curve = r.cubic_state.w_cubic(Duration::from_millis(now - 1000 + 100)).to_usize();
        assert!(r.cwnd() <= curve.max(before));
    }
    // Many acknowledgements in one round trip bring it close.
    for _ in 0..200_000 {
        on_packet_acked(&mut r, EPOCH_APPLICATION, &sent(21000, 1200), ms(21050), None);
    }
    let curve = r.cubic_state.w_cubic(Duration::from_millis(20150)).to_usize();
    assert!(r.cwnd() <= curve && curve - r.cwnd() < curve / 1000);
}

#[test]
fn the_friendly_window_lifts_a_slow_curve() {
    // On a short path W_est overtakes the curve.
    let mut r = recovering(14520);
    r.min_rtt = Duration::from_millis(10);
    on_packet_acked(&mut r, EPOCH_APPLICATION, &sent(1100, 1200), ms(2000), None);
    let w_est = f64::from_bits(bits(
        r.cubic_state.w_est(Duration::from_millis(1000), Duration::from_millis(10)),
    ));
    assert_eq!(r.cwnd(), w_est as usize);
    assert_eq!(r.cwnd(), 87034);
}

#[test]
fn unknown_round_trip_times() {
    let r = recovering(14520);
    let zero = Duration::zero();
    assert!(matches!(r.cubic_state.w_est(Duration::from_millis(1), zero), Extended::Infinite));
    assert!(matches!(r.cubic_state.w_est(zero, zero), Extended::Undefined));
    // Congestion avoidance without a round trip time: at once nothing is added, later
    // the window has no bound.
    let mut r = connection();
    r.ssthresh = 0;
    on_packet_acked(&mut r, EPOCH_APPLICATION, &sent(1, 1200), ms(2), None);
    assert_eq!(r.cwnd(), INITIAL_WINDOW);
    assert!(r.in_congestion_recovery(ms(2)));
    on_packet_acked(&mut r, EPOCH_APPLICATION, &sent(3, 1200), ms(4), None);
    assert_eq!(r.cwnd(), usize::MAX);
}

#[test]
fn congestion_avoidance_without_an_event_starts_at_the_window() {
    let mut r = connection();
    r.ssthresh = INITIAL_WINDOW;
    r.min_rtt = Duration::from_millis(100);
    on_packet_acked(&mut r, EPOCH_APPLICATION, &sent(1, 1200), ms(1000), None);
    assert!(r.in_congestion_recovery(ms(1000)));
    let w = r.cubic_state.w_cubic(Duration::zero());
    assert_eq!(f64::from_bits(w.to_bits()), 14520.0);
    // C * 0.1^3 packets above the window, too little for a byte.
    assert_eq!(r.cwnd(), INITIAL_WINDOW);
}

#[test]
fn an_empty_window_opens_fully() {
    let mut r = connection();
    r.congestion_window = 0;
    r.ssthresh = 0;
    r.min_rtt = Duration::from_millis(2000);
    on_packet_acked(&mut r, EPOCH_APPLICATION, &sent(1, 1200), ms(1000), None);
    assert_eq!(r.cwnd(), usize::MAX);
}

#[test]
fn events_that_do_not_fit() {
    let mut r = connection();
    assert!(can_send(&r, usize::MAX, ms(1)));
    on_packet_sent(&mut r, 10, ms(1));
    assert!(!can_send(&r, usize::MAX - 9, ms(1)));
    assert!(can_send(&r, usize::MAX - 10, ms(1)));
    // Slow start past the largest window.
    r.congestion_window = usize::MAX - 100;
    assert!(can_ack(&r, EPOCH_APPLICATION, &sent(1, 100), ms(2)));
    assert!(!can_ack(&r, EPOCH_APPLICATION, &sent(1, 101), ms(2)));
    r.app_limited = true;
    assert!(can_ack(&r, EPOCH_APPLICATION, &sent(1, 101), ms(2)));
    // A start of the recovery period past the end of time.
    let late = Instant::new(Duration::from_millis(u64::MAX));
    let mut end = late;
    while let Some(t) = end.checked_add(Duration::from_millis(u64::MAX / 2)) {
        end = t;
    }
    let mut r = connection();
    on_packet_sent(&mut r, 0, ms(1));
    congestion_event(&mut r, ms(1), EPOCH_APPLICATION, end);
    assert!(can_send(&r, 0, ms(1)));
    assert!(!can_send(&r, 0, late));
    r.bytes_in_flight = 1;
    assert!(can_send(&r, 0, late));
    // A time after the round trip past the longest span.
    let mut r = connection();
    congestion_event(&mut r, ms(1), EPOCH_APPLICATION, ms(1));
    let p = sent(2, 1);
    r.min_rtt = Duration::from_millis(u64::MAX);
    // There the curve is out of reach of any window.
    assert!(!can_ack(&r, EPOCH_APPLICATION, &p, ms(5)));
    r.congestion_window = usize::MAX;
    assert!(can_ack(&r, EPOCH_APPLICATION, &p, ms(5)));
    assert!(!can_ack(&r, EPOCH_APPLICATION, &p, end));
}

#[test]
fn shared_steps() {
    let mut r = connection();
    reno::on_packet_sent(&mut r, 1200);
    reno::on_packet_sent(&mut r, 300);
    assert_eq!(r.bytes_in_flight, 1500);
    reno::collapse_cwnd(&mut r);
    assert_eq!(r.cwnd(), MINIMUM_WINDOW);
    assert_eq!(r.ssthresh, usize::MAX);
}

#[test]
fn spans_of_time() {
    let a = Duration::from_millis(1500);
    let b = Duration::from_nanos(700_000_000);
    assert_eq!(f64::from_bits(a.as_secs().to_bits()), 1.5);
    assert_eq!(f64::from_bits(a.saturating_sub(b).as_secs().to_bits()), 0.8);
    assert_eq!(f64::from_bits(a.checked_add(b).unwrap().as_secs().to_bits()), 2.2);
    assert!(b.saturating_sub(a).is_zero() && Duration::zero().is_zero() && !b.is_zero());
    assert!(b.less_than(a) && !a.less_than(b) && !a.less_than(a));
    let t = Instant::new(a);
    let later = t.checked_add(b).unwrap();
    assert!(later.is_after(t) && !t.is_after(later) && !t.is_after(t));
    assert_eq!(f64::from_bits(later.since(t).as_secs().to_bits()), 0.7);
    assert!(t.since(later).is_zero());
    let std = std::time::Duration::from_nanos(123_456_789_987);
    let own = Duration::from_nanos(123_456_789_987);
    assert_eq!(own.as_secs().to_bits(), std.as_secs_f64().to_bits());
}
