[package]
name = "dsh_wasm_studio"
version = "0.1.0"
edition = "2021"
publish = false

[dependencies]
serde = { version = "=1.0.229", features = ["derive"] }
serde_json = "=1.0.154"
anyhow = "=1.0.104"
tokio = { version = "=1.54.1", features = ["rt-multi-thread", "macros", "time"] }
cordis-rust = "=0.2.1"
dsh-rs = "=0.2.0"
reqwest = { version = "=0.12.28", default-features = false }
