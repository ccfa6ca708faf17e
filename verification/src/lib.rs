//! CUBIC congestion control.

pub mod float;
pub mod number;
pub mod packet;
pub mod recovery;
pub mod time;
pub mod value;
