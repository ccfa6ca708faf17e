//! The loss recovery state that congestion control reads and updates.

pub mod cubic;
pub mod curve;
pub mod laws;
pub mod reno;

use crate::recovery::cubic::State;
use crate::recovery::cubic::StateModel;
use crate::time::Duration;
use crate::time::Instant;
use vstd::prelude::*;

verus! {

/// The size in bytes of the largest packet.
pub const MAX_DATAGRAM_SIZE: usize = 1452;

/// The congestion window of a new connection.
pub const INITIAL_WINDOW: usize = 10 * MAX_DATAGRAM_SIZE;

/// The window that congestion control never goes below.
pub const MINIMUM_WINDOW: usize = 2 * MAX_DATAGRAM_SIZE;

/// What congestion control reads of a packet that was sent.
#[derive(Clone, Copy, Debug)]
pub struct Sent {
    pub time_sent: Instant,
    pub size: usize,
}

/// What congestion control reads of HyStart++: whether it is in use, and whether it
/// is in Limited Slow Start.
#[derive(Clone, Copy, Debug)]
pub struct Hystart {
    pub enabled: bool,
    pub in_lss: bool,
}

/// The window and the threshold that HyStart++ answers an acknowledgement with.
#[derive(Clone, Copy, Debug)]
pub struct HystartAck {
    pub congestion_window: usize,
    pub ssthresh: usize,
}

/// The recovery state of a connection.
#[derive(Clone, Copy, Debug)]
pub struct Recovery {
    pub cubic_state: State,
    pub congestion_recovery_start_time: Option<Instant>,
    pub congestion_window: usize,
    pub ssthresh: usize,
    pub bytes_in_flight: usize,
    pub app_limited: bool,
    pub hystart: Hystart,
    pub min_rtt: Duration,
}

/// A [`Recovery`] with its numbers and points in time as mathematical values; times
/// are in nanoseconds.
pub struct RecoveryModel {
    pub cubic_state: StateModel,
    pub congestion_recovery_start_time: Option<nat>,
    pub congestion_window: nat,
    pub ssthresh: nat,
    pub bytes_in_flight: nat,
    pub app_limited: bool,
    pub hystart: Hystart,
    pub min_rtt: nat,
}

/// The point in time that may be there, in nanoseconds.
pub open spec fn time_of(t: Option<Instant>) -> Option<nat> {
    match t {
        Some(t) => Some(t@),
        None => None,
    }
}

pub open spec fn max(x: nat, y: nat) -> nat {
    if x >= y {
        x
    } else {
        y
    }
}

pub open spec fn saturating_sub(x: nat, y: nat) -> nat {
    if x >= y {
        (x - y) as nat
    } else {
        0
    }
}

impl View for Recovery {
    type V = RecoveryModel;

    open spec fn view(&self) -> RecoveryModel {
        RecoveryModel {
            cubic_state: self.cubic_state@,
            congestion_recovery_start_time: time_of(self.congestion_recovery_start_time),
            congestion_window: self.congestion_window as nat,
            ssthresh: self.ssthresh as nat,
            bytes_in_flight: self.bytes_in_flight as nat,
            app_limited: self.app_limited,
            hystart: self.hystart,
            min_rtt: self.min_rtt@,
        }
    }
}

impl RecoveryModel {
    /// The state of a new connection.
    pub open spec fn initial(hystart_enabled: bool) -> RecoveryModel {
        RecoveryModel {
            cubic_state: StateModel::initial(),
            congestion_recovery_start_time: None,
            congestion_window: INITIAL_WINDOW as nat,
            ssthresh: usize::MAX as nat,
            bytes_in_flight: 0,
            app_limited: false,
            hystart: Hystart { enabled: hystart_enabled, in_lss: false },
            min_rtt: 0,
        }
    }

    /// The window is at least the minimum window.
    pub open spec fn wf(self) -> bool {
        MINIMUM_WINDOW <= self.congestion_window
    }

    /// Whether a packet sent at `time_sent` was sent no later than the start of the
    /// recovery period that the connection is in.
    pub open spec fn in_congestion_recovery(self, time_sent: nat) -> bool {
        match self.congestion_recovery_start_time {
            Some(start) => time_sent <= start,
            None => false,
        }
    }
}

impl Recovery {
    /// The state of a new connection.
    pub fn new(hystart_enabled: bool) -> (r: Recovery)
        ensures
            r@ == RecoveryModel::initial(hystart_enabled),
    {
        Recovery {
            cubic_state: State::default(),
            congestion_recovery_start_time: None,
            congestion_window: INITIAL_WINDOW,
            ssthresh: usize::MAX,
            bytes_in_flight: 0,
            app_limited: false,
            hystart: Hystart { enabled: hystart_enabled, in_lss: false },
            min_rtt: Duration::zero(),
        }
    }

    /// The congestion window in bytes.
    pub fn cwnd(&self) -> (r: usize)
        ensures
            r == self.congestion_window,
    {
        self.congestion_window
    }

    /// Whether a packet sent at `time_sent` was sent no later than the start of the
    /// recovery period that the connection is in.
    pub fn in_congestion_recovery(&self, time_sent: Instant) -> (r: bool)
        ensures
            r == self@.in_congestion_recovery(time_sent@),
    {
        match self.congestion_recovery_start_time {
            Some(start) => !time_sent.is_after(start),
            None => false,
        }
    }
}

} // verus!
