//! Protocol engine of an edge tunnel relay: header codec, dispatch policy,
//! dial policy and the bidirectional relay loop, as verified state machines.

pub mod bytes;
pub mod config;
pub mod dial;
pub mod event;
pub mod header;
pub mod hex;
pub mod password;
pub mod relay;
pub mod session;
