[package]
name = "kahui"
version = "0.1.0"
edition = "2021"
publish = false

[dependencies]
blake3 = "1"
bs58 = "0.5"
ed25519-dalek = { version = "2", features = ["rand_core"] }
rand = "0.8"
libp2p = { version = "0.54", default-features = false, features = ["ed25519"] }
redb = "2"
serde = { version = "1", features = ["derive"] }
serde_json = "1"
clap = { version = "4", features = ["derive", "env"] }
anyhow = "1"
thiserror = "1"
directories = "5"

[dev-dependencies]
postcard = { version = "1", features = ["use-std"] }
hex = "0.4"
