[package]
name = "skillexec"
version = "0.1.0"
edition = "2021"
publish = false

[dependencies]
blake3 = "=1.8.7"
ed25519-dalek = "=2.2.0"
zstd = "=0.13.4"
toml = "=1.1.8"
wasmtime = "=47.0.4"
anyhow = "=1.0.104"
serde = { version = "=1.0.229", features = ["derive"] }
walkdir = "=2.5.0"
rayon = "=1.12.0"
tracing = "=0.1.44"
tracing-subscriber = { version = "=0.3.23", features = ["env-filter"] }
rmcp = { version = "=3.8.0", features = ["server", "macros", "transport-io"] }
tokio = { version = "=1.54.1", features = ["macros", "rt-multi-thread", "io-std"] }
schemars = "=1.2.3"

[dev-dependencies]
wat = "=1.263.0"
