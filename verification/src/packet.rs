//! Packet number spaces.

use vstd::prelude::*;

verus! {

/// The packet number space that a packet belongs to.
pub type Epoch = usize;

pub const EPOCH_INITIAL: Epoch = 0;

pub const EPOCH_HANDSHAKE: Epoch = 1;

pub const EPOCH_APPLICATION: Epoch = 2;

} // verus!
