//! A small reliable file transfer over unreliable datagrams: frame codec,
//! chunk splitter, and the sender and receiver state machines.
pub mod packet;
pub mod splitter;
pub mod sender;
pub mod receiver;

pub use packet::{FrameError, Packet};
