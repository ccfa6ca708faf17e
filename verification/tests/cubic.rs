//! CUBIC on connections.

use cubic::packet;
use cubic::recovery::cubic::{collapse_cwnd, congestion_event, consults_hystart, on_packet_acked, on_packet_sent};
use cubic::recovery::{HystartAck, Recovery, Sent, MINIMUM_WINDOW};
use cubic::time::{Duration, Instant};

const BETA_CUBIC: f64 = 0.7;

/// Some time after the origin.
fn start() -> Instant {
    Instant::new(Duration::from_millis(12345))
}

fn later(t: Instant, d: Duration) -> Instant {
    t.checked_add(d).unwrap()
}

/// Acknowledges a packet on a path on which HyStart++ stays in standard slow start.
fn ack(r: &mut Recovery, epoch: packet::Epoch, p: &Sent, now: Instant) {
    let answer = if consults_hystart(r, epoch, p) {
        Some(HystartAck { congestion_window: r.cwnd() + p.size, ssthresh: r.ssthresh })
    } else {
        None
    };
    on_packet_acked(r, epoch, p, now, answer);
}

#[test]
fn cubic_init() {
    let r = Recovery::new(true);

    assert!(r.cwnd() > 0);
    assert_eq!(r.bytes_in_flight, 0);
}

#[test]
fn cubic_send() {
    let mut r = Recovery::new(true);

    on_packet_sent(&mut r, 1000, start());

    assert_eq!(r.bytes_in_flight, 1000);
}

#[test]
fn cubic_slow_start() {
    let mut r = Recovery::new(true);
    let now = start();

    let p = Sent { time_sent: now, size: 5000 };

    // Send 5k x 4 = 20k, higher than default cwnd(~15k)
    // to become no longer app limited
    on_packet_sent(&mut r, p.size, now);
    on_packet_sent(&mut r, p.size, now);
    on_packet_sent(&mut r, p.size, now);
    on_packet_sent(&mut r, p.size, now);

    let cwnd_prev = r.cwnd();

    ack(&mut r, packet::EPOCH_APPLICATION, &p, now);

    // Check if cwnd increased by packet size (slow start)
    assert_eq!(r.cwnd(), cwnd_prev + p.size);
}

#[test]
fn cubic_congestion_event() {
    let mut r = Recovery::new(true);
    let now = start();
    let prev_cwnd = r.cwnd();

    congestion_event(&mut r, now, packet::EPOCH_APPLICATION, now);

    // In CUBIC, after congestion event, cwnd will be reduced by (1 -
    // CUBIC_BETA)
    assert_eq!(prev_cwnd as f64 * BETA_CUBIC, r.cwnd() as f64);
}

#[test]
fn cubic_congestion_avoidance() {
    let mut r = Recovery::new(true);
    let now = start();
    let prev_cwnd = r.cwnd();

    // Fill up bytes_in_flight to avoid app_limited=true
    on_packet_sent(&mut r, 20000, now);

    // Trigger congestion event to update ssthresh
    congestion_event(&mut r, now, packet::EPOCH_APPLICATION, now);

    // After congestion event, cwnd will be reduced.
    assert_eq!(prev_cwnd as f64 * BETA_CUBIC, r.cwnd() as f64);

    let rtt = Duration::from_millis(100);

    let p = Sent {
        // To exit from recovery
        time_sent: later(now, rtt),
        size: 1000,
    };

    // Ack 1000 bytes with rtt=100ms
    r.min_rtt = rtt;
    ack(&mut r, packet::EPOCH_APPLICATION, &p, later(later(now, rtt), rtt));

    // Expecting a small increase (congestion avoidance mode)
    assert_eq!(r.cwnd(), 10408);
}

#[test]
fn cubic_collapse_cwnd_and_restart() {
    let mut r = Recovery::new(true);
    let now = start();

    // Fill up bytes_in_flight to avoid app_limited=true
    on_packet_sent(&mut r, 30000, now);

    // Trigger congestion event to update ssthresh
    congestion_event(&mut r, now, packet::EPOCH_APPLICATION, now);

    // After persistent congestion, cwnd should be MINIMUM_WINDOW
    collapse_cwnd(&mut r);
    assert_eq!(r.cwnd(), MINIMUM_WINDOW);

    let p = Sent {
        // To exit from recovery
        time_sent: later(now, Duration::from_millis(1)),
        size: 10000,
    };

    // Ack 10000 x 2 to exit from slow start
    ack(&mut r, packet::EPOCH_APPLICATION, &p, now);

    // This will make CC into congestion avoidance mode
    ack(&mut r, packet::EPOCH_APPLICATION, &p, now);

    assert_eq!(r.cwnd(), MINIMUM_WINDOW + 10000);
}
