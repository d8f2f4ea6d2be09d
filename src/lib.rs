//! Core of a UDP rendezvous server: the wire codec, the per-peer reliability
//! layer, and the session registry with its event handlers.

pub mod addr;
pub mod codec;
pub mod reliability;
pub mod keys;
pub mod server;
