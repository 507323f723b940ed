//! A reliable, ordered, one-way byte stream over unreliable datagrams.
//!
//! The crate holds the segment codec, the sequence arithmetic and the two
//! endpoint state machines. Sockets, clocks and standard streams are the
//! caller's: the state machines take received datagrams and the current time
//! as plain values and hand back the segments to transmit.

pub mod util;
pub mod digest;
pub mod entropy;
pub mod status;
pub mod tcp_header;
pub mod tcp_receiver;
pub mod tcp_sender;
pub mod delivery;
