[package]
name = "oxidarb"
version = "0.1.0"
edition = "2021"
publish = false

[dependencies]
anyhow = "=1.0.104"
async-trait = "=0.1.92"
dashmap = "=6.2.1"
dptree = "=0.3.0"
fast-float = "=0.2.0"
futures-util = "=0.3.34"
hex = "=0.4.3"
hmac = "=0.12.1"
reqwest = { version = "=0.12.28", default-features = false, features = ["json", "rustls-tls"] }
rust_decimal = "=1.43.0"
rust_decimal_macros = "=1.40.0"
serde = { version = "=1.0.229", features = ["derive"] }
serde_json = "=1.0.154"
sha2 = "=0.10.9"
simd-json = { version = "=0.14.3", features = ["value-no-dup-keys"] }
# Held back for teloxide: later releases need a newer compiler.
takecell = "=0.1.1"
teloxide = { version = "=0.13.0", default-features = false, features = ["rustls", "ctrlc_handler"] }
tokio = { version = "=1.54.1", features = ["full"] }
tokio-tungstenite = { version = "=0.24.0", features = ["rustls-tls-webpki-roots"] }
tracing = "=0.1.44"
tracing-subscriber = { version = "=0.3.23", features = ["env-filter"] }
urlencoding = "=2.1.3"
zeroize = "=1.9.1"
