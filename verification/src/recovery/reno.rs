//! The steps that CUBIC shares with NewReno.

use crate::recovery::Recovery;
use crate::recovery::RecoveryModel;
use crate::recovery::MINIMUM_WINDOW;
use vstd::prelude::*;

verus! {

/// Counts a packet that was sent as in flight.
pub fn on_packet_sent(r: &mut Recovery, sent_bytes: usize)
    requires
        old(r).bytes_in_flight + sent_bytes <= usize::MAX,
    ensures
        final(r)@ == (RecoveryModel {
            bytes_in_flight: old(r)@.bytes_in_flight + sent_bytes as nat,
            ..old(r)@
        }),
{
    r.bytes_in_flight = r.bytes_in_flight + sent_bytes;
}

/// Brings the window down to the minimum window.
pub fn collapse_cwnd(r: &mut Recovery)
    ensures
        final(r)@ == (RecoveryModel { congestion_window: MINIMUM_WINDOW as nat, ..old(r)@ }),
{
    r.congestion_window = MINIMUM_WINDOW;
}

} // verus!
