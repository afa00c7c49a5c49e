[package]
name = "hypercompress"
version = "0.1.0"
edition = "2021"
publish = false

[dependencies]
xz2 = "0.1"
flate2 = "1"
xxhash-rust = { version = "0.8", features = ["xxh32"] }
aes-gcm = "0.10"
argon2 = "0.5"
rand = "0.8"
clap = { version = "4", features = ["derive"] }
anyhow = "1"
rayon = "1"
bzip2 = "0.4"
thiserror = "1"
