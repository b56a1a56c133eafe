//! Host–device link of a small display controller: a ring buffer for
//! received bytes, a frame codec with zero-byte stuffing, packets and their
//! commands, frame assembly from the byte stream, and the splitting of a
//! screen update into packets.
use vstd::prelude::*;

pub mod cast;
pub mod circ_buff;
pub mod cobs;
pub mod dispatch;
pub mod frame;
pub mod packet;
pub mod random;
pub mod utils;

verus! {

} // verus!
