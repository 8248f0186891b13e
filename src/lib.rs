//! Host-side communication core for a serial plotting device: a framed packet
//! codec, a bounded queue of in-flight commands, and the decisions of the
//! driver loop that owns the serial port.
pub mod codec;
pub mod driver;
pub mod message;
pub mod packet;
pub mod queue;

pub use packet::{BlotPacket, PacketState};
