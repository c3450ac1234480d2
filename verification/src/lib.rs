//! Core of a user-space TCP/IP stack: zero-allocation decoders for IPv4 and
//! TCP headers, a connection table keyed by the four-tuple, and the RFC793-style
//! TCP connection state machine with sequence-number and retransmission
//! bookkeeping. The surrounding read/write loop over the virtual network
//! interface lives outside this library and hands it plain byte buffers.

pub mod common;
pub mod ip;
pub mod tcp;
