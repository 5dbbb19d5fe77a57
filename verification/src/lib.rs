//! Userspace obfuscation of WireGuard datagrams: header repair, stream
//! ciphers, keepalive burst dropping and the packet transform itself.

pub mod cipher;
pub mod cli;
pub mod config;
pub mod filter;
pub mod netutils;
pub mod randomiser;
pub mod text;
