//! Decoding of S.BUS serial frames and reassembly of frames from a byte stream.
pub mod packet;
pub mod receiver;

pub use packet::{is_sbus_packet_end, Data, Packet, SBUS_PACKET_BEGIN, SBUS_PACKET_SIZE};
pub use receiver::Receiver;
