[package]
name = "cdbgen_rs"
version = "0.1.0"
edition = "2021"
publish = false

[dependencies]
cdb = "0.6"
clap = { version = "4", features = ["derive"] }
idna = "1"
reqwest = { version = "0.12", default-features = false, features = ["rustls-tls", "gzip", "brotli", "zstd", "deflate"] }
serde = { version = "1", features = ["derive"] }
thiserror = "2"
tokio = { version = "1", features = ["full"] }
toml = "0.8"
tracing = "0.1"
tracing-subscriber = { version = "0.3", features = ["env-filter"] }
url = "2"

[dev-dependencies]
tempfile = "3"
