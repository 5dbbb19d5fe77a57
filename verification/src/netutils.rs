//! Header repair for IPv4 and IPv6 datagrams that carry UDP.

pub mod common;
pub mod ipv4;
pub mod ipv6;
