[package]
name = "ethp2p"
version = "0.1.0"
edition = "2021"
publish = false

[dependencies]
futures = "0.3"
hex = "0.4"
prost = { version = "0.13", default-features = false, features = ["std", "derive"] }
quinn = { version = "0.11", default-features = false, features = ["runtime-tokio", "rustls-ring"] }
rand = "0.9"
rand_chacha = "0.9"
rcgen = { version = "0.13", default-features = false, features = ["ring"] }
reed-solomon-erasure = "6"
rustls = { version = "0.23", default-features = false, features = ["ring", "std"] }
serde = { version = "1", features = ["derive"] }
sha2 = "0.10"
tokio = { version = "1", features = ["rt", "rt-multi-thread", "sync", "time", "macros", "io-util"] }
tokio-stream = "0.1"
toml = "0.8"
tracing = "0.1"
