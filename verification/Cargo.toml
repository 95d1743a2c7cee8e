[package]
name = "hashsig"
version = "0.1.0"
edition = "2021"
publish = false

[dependencies]
sha2 = "*"
rand = "*"
zkhash = "*"
p3-keccak = "*"
p3-symmetric = "*"
p3-koala-bear = "*"
dashmap = "*"
once_cell = "*"
num-bigint = "*"

[dev-dependencies]
num-traits = "*"
