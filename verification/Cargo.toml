[package]
name = "x79d8"
version = "0.1.0"
edition = "2021"
publish = false

[dependencies]
aes = "0.8"
cfb-mode = "0.8"
blake2 = "0.10"
rand = "0.8"
rand_chacha = "0.3"
async-trait = "0.1"
env_logger = "0.9"
hex = "0.4"
libunftp = "0.17"
log = "0.4"
parking_lot = "0.12"
rpassword = "5"
scrypt = "0.10"
serde = { version = "1", features = ["derive"] }
serde_json = "1"
slog = "2"
slog-stdlog = "4"
structopt = "0.3"
tempfile = "3"
tokio = { version = "1", features = ["full"] }

[dev-dependencies]
bincode = "1"
