//! The windows agree with those that machine arithmetic gives, step by step.

use cubic::packet;
use cubic::recovery::cubic::{
    can_ack, can_send, collapse_cwnd, congestion_event, consults_hystart, on_packet_acked,
    on_packet_sent,
};
use cubic::recovery::{HystartAck, Recovery, Sent, MAX_DATAGRAM_SIZE, MINIMUM_WINDOW};
use cubic::time::{Duration, Instant};

const BETA_CUBIC: f64 = 0.7;

const C: f64 = 0.4;

/// The time in nanoseconds.
type Time = u64;

fn seconds(nanos: Time) -> f64 {
    (nanos / 1_000_000_000) as f64 + (nanos % 1_000_000_000) as f64 / 1e9
}

/// The congestion control state in machine numbers.
struct Machine {
    k: f64,
    w_max: f64,
    last_sent_time: Option<Time>,
    start: Option<Time>,
    cwnd: usize,
    ssthresh: usize,
    bytes_in_flight: usize,
    app_limited: bool,
    in_lss: bool,
    min_rtt: Time,
}

impl Machine {
    fn new() -> Machine {
        Machine {
            k: 0.0,
            w_max: 0.0,
            last_sent_time: None,
            start: None,
            cwnd: 10 * MAX_DATAGRAM_SIZE,
            ssthresh: usize::MAX,
            bytes_in_flight: 0,
            app_limited: false,
            in_lss: false,
            min_rtt: 0,
        }
    }

    fn packets(&self) -> f64 {
        self.w_max / MAX_DATAGRAM_SIZE as f64
    }

    fn w_cubic(&self, t: Time) -> f64 {
        let x = seconds(t) - self.k;
        (C * (x * x * x) + self.packets()) * MAX_DATAGRAM_SIZE as f64
    }

    fn w_est(&self, t: Time) -> f64 {
        (self.packets() * BETA_CUBIC
            + 3.0 * (1.0 - BETA_CUBIC) / (1.0 + BETA_CUBIC) * seconds(t) / seconds(self.min_rtt))
            * MAX_DATAGRAM_SIZE as f64
    }

    fn in_recovery(&self, time_sent: Time) -> bool {
        self.start.is_some() && time_sent <= self.start.unwrap()
    }

    fn reduced(&self) -> usize {
        ((self.cwnd as f64 * BETA_CUBIC) as usize).max(MINIMUM_WINDOW)
    }

    fn send(&mut self, bytes: usize, now: Time) {
        if let (Some(last), Some(start), 0) = (self.last_sent_time, self.start, self.bytes_in_flight) {
            self.start = Some(start + (now - last));
        }
        self.last_sent_time = Some(now);
        self.bytes_in_flight += bytes;
    }

    fn ack(&mut self, time_sent: Time, size: usize, now: Time, hystart: Option<HystartAck>) {
        let in_recovery = self.in_recovery(time_sent);
        self.bytes_in_flight = self.bytes_in_flight.saturating_sub(size);
        if in_recovery || self.app_limited {
            return;
        }
        if self.cwnd < self.ssthresh {
            match hystart {
                Some(a) => {
                    self.cwnd = a.congestion_window;
                    self.ssthresh = a.ssthresh;
                },
                None => self.cwnd += size,
            }
            return;
        }
        if self.start.is_none() {
            self.start = Some(now);
            self.k = 0.0;
            self.w_max = self.cwnd as f64;
        }
        let t = now.saturating_sub(self.start.unwrap());
        let w_cubic = self.w_cubic(t + self.min_rtt);
        let w_est = self.w_est(t);
        if w_cubic < w_est {
            self.cwnd = self.cwnd.max(w_est as usize);
        } else if self.cwnd < w_cubic as usize {
            let more = (w_cubic - self.cwnd as f64) / self.cwnd as f64 * MAX_DATAGRAM_SIZE as f64;
            self.cwnd += more as usize;
        }
        if let Some(a) = hystart {
            self.cwnd = self.cwnd.max(a.congestion_window);
        }
    }

    fn lose(&mut self, time_sent: Time, now: Time) {
        if self.in_recovery(time_sent) {
            return;
        }
        self.start = Some(now);
        self.w_max = self.cwnd as f64;
        self.ssthresh = self.reduced();
        self.cwnd = self.ssthresh;
        self.k = libm::cbrt(self.packets() * (1.0 - BETA_CUBIC) / C);
    }

    fn collapse(&mut self) {
        self.start = None;
        self.w_max = self.cwnd as f64;
        self.ssthresh = self.reduced();
        self.cwnd = MINIMUM_WINDOW;
    }
}

/// A linear congruential generator.
struct Random(u64);

impl Random {
    fn below(&mut self, n: u64) -> u64 {
        self.0 = self.0.wrapping_mul(6364136223846793005).wrapping_add(1442695040888963407);
        (self.0 >> 33) % n
    }
}

fn at(t: Time) -> Instant {
    Instant::new(Duration::from_nanos(t))
}

fn compare(r: &Recovery, m: &Machine, now: Time, step: usize) {
    assert_eq!(r.cwnd(), m.cwnd, "step {}", step);
    assert_eq!(r.ssthresh, m.ssthresh, "step {}", step);
    assert_eq!(r.bytes_in_flight, m.bytes_in_flight, "step {}", step);
    assert_eq!(r.congestion_recovery_start_time.is_some(), m.start.is_some());
    if let (Some(a), Some(b)) = (r.congestion_recovery_start_time, m.start) {
        assert!(!a.is_after(at(b)) && !at(b).is_after(a), "step {}", step);
    }
    // What the state holds shows in the curves.
    for t in [0, 1, 100_000_000, 7_654_321_000, now] {
        let w_cubic = r.cubic_state.w_cubic(Duration::from_nanos(t));
        assert_eq!(w_cubic.to_bits(), (m.w_cubic(t) + 0.0).to_bits(), "step {}", step);
    }
}

/// One connection of random events. The window may start anywhere.
fn run(seed: u64, cwnd: usize, hystart: bool) {
    let mut random = Random(seed);
    let mut r = Recovery::new(hystart);
    let mut m = Machine::new();
    r.congestion_window = cwnd;
    m.cwnd = cwnd;
    let mut now: Time = 1_000_000;
    for step in 0..400 {
        now += match random.below(4) {
            0 => 0,
            1 => random.below(1_000_000),
            2 => random.below(200_000_000),
            _ => random.below(3_000_000_000),
        };
        match random.below(20) {
            0..=5 => {
                let bytes = random.below(3000) as usize;
                assert!(can_send(&r, bytes, at(now)));
                on_packet_sent(&mut r, bytes, at(now));
                m.send(bytes, now);
            },
            6..=14 => {
                let time_sent = now - random.below(now.min(300_000_000));
                let epoch = random.below(3) as packet::Epoch;
                let p = Sent { time_sent: at(time_sent), size: random.below(3000) as usize };
                let answer = if consults_hystart(&r, epoch, &p) {
                    Some(HystartAck {
                        congestion_window: r.cwnd() + random.below(1500) as usize,
                        ssthresh: if random.below(10) == 0 { r.cwnd() } else { r.ssthresh },
                    })
                } else {
                    None
                };
                if can_ack(&r, epoch, &p, at(now)) {
                    on_packet_acked(&mut r, epoch, &p, at(now), answer);
                    m.ack(time_sent, p.size, now, answer);
                }
            },
            15 | 16 => {
                let time_sent = now - random.below(now.min(500_000_000));
                let tell = congestion_event(&mut r, at(time_sent), packet::EPOCH_APPLICATION, at(now));
                assert_eq!(tell, hystart && !m.in_recovery(time_sent));
                m.lose(time_sent, now);
            },
            17 => {
                let rtt = 1 + random.below(400_000_000);
                r.min_rtt = Duration::from_nanos(rtt);
                m.min_rtt = rtt;
            },
            18 => {
                let limited = random.below(3) == 0;
                r.app_limited = limited;
                m.app_limited = limited;
                let lss = random.below(2) == 0;
                r.hystart.in_lss = lss;
                m.in_lss = lss;
            },
            _ => {
                if random.below(5) == 0 {
                    collapse_cwnd(&mut r);
                    m.collapse();
                }
            },
        }
        compare(&r, &m, now, step);
    }
}

#[test]
fn windows_agree_with_the_machine() {
    for seed in 0..40 {
        run(seed, 14520, seed % 2 == 0);
    }
}

#[test]
fn odd_windows_agree_with_the_machine() {
    let windows = [0, 1, 1451, 2903, 2904, 2905, 180_000, 12_345_678, 987_654_321_012, (1 << 53) + 1];
    for (i, cwnd) in windows.into_iter().enumerate() {
        for seed in 0..4 {
            run(1000 + 10 * i as u64 + seed, cwnd, seed % 2 == 0);
        }
    }
}

/// K, W_cubic and W_est after a congestion event with a given window.
#[test]
fn curves_agree_with_the_machine() {
    let mut random = Random(5);
    for i in 0..300u64 {
        let cwnd = match i % 3 {
            0 => 1452 * (i + 2),
            1 => random.below(1 << 24),
            _ => random.below(1 << 30) << random.below(30),
        } as usize;
        let mut r = Recovery::new(false);
        let mut m = Machine::new();
        r.congestion_window = cwnd;
        m.cwnd = cwnd;
        congestion_event(&mut r, at(0), packet::EPOCH_APPLICATION, at(0));
        m.lose(0, 0);
        assert_eq!(r.cubic_state.cubic_k().to_bits(), m.k.to_bits());
        for _ in 0..10 {
            let t = random.below(1 << 31) << random.below(8);
            let rtt = 1 + random.below(1 << 31);
            m.min_rtt = rtt;
            let span = Duration::from_nanos(t);
            assert_eq!(r.cubic_state.w_cubic(span).to_bits(), m.w_cubic(t).to_bits());
            match r.cubic_state.w_est(span, Duration::from_nanos(rtt)) {
                cubic::recovery::cubic::Extended::Finite(w) => {
                    assert_eq!(w.to_bits(), m.w_est(t).to_bits())
                },
                other => panic!("not finite: {:?}", other),
            }
        }
    }
}
