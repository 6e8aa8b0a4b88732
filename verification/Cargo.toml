[package]
name = "banyanfs"
version = "0.1.0"
edition = "2021"
publish = false

[dependencies]
blake3 = "1"
rand = "0.8"
rand_chacha = "0.3"
time = "0.3"
mime_guess = "2"
mime = "0.3"
slab = "0.4"
chacha20poly1305 = "0.10"
p384 = "0.13"
ecdsa = "0.16"
elliptic-curve = "0.13"
sha2 = "0.10"
futures = "0.3"
async-std = "1"
async-trait = "0.1"
thiserror = "1"
tokio = { version = "1", features = ["macros", "rt-multi-thread", "fs"] }
tokio-util = { version = "0.7", features = ["compat"] }
tracing = "0.1"
tracing-subscriber = { version = "0.3", features = ["env-filter"] }
tracing-appender = "0.2"
url = "2"
directories = "5"
bytes = "1"
zeroize = "1"
