//! The packet filter: keepalive dropping, the obfuscating transform and
//! the verdict on each queued packet.

pub mod keepalive;
pub mod obfuscator;
pub mod queue;
pub mod round_trip;
