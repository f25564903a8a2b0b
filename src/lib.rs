//! An ICMP Echo probing engine: wire codec, probe bookkeeping and the
//! per-round decision logic of a ping session.

pub mod checksum;
pub mod codec;
pub mod stats;
pub mod table;
pub mod session;
