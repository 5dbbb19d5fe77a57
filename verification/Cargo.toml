[package]
name = "nf_wgobfs"
version = "0.1.0"
edition = "2021"
publish = false

[dependencies]
chacha20 = "0.9"
cpufeatures = "0.2"
fast_chacha = "*"
fastrand = "2"
nfq = "0.2"
rand = "0.9"
sha2 = "0.10"
