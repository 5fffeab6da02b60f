[package]
name = "shredstream"
version = "0.1.0"
edition = "2021"
publish = false

[dependencies]
reed-solomon-erasure = "=6.0.0"
rustc-hash = "=2.1.3"
solana-entry = "=4.1.2"
solana-transaction = "=4.3.0"
wincode = "=0.5.5"
bincode = "=1.3.3"
thiserror = "=2.0.21"
socket2 = "=0.6.5"
libc = "=0.2.191"

[dev-dependencies]
solana-signature = "=3.6.0"
solana-message = "=4.6.0"
