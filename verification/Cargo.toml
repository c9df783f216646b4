[package]
name = "release_artifacts"
version = "0.1.0"
edition = "2021"
publish = false

[dependencies]
serde_json = "*"
zstd = "*"
serde = { version = "*", features = ["derive"] }
reqwest = { version = "*", default-features = false, features = ["json", "stream", "rustls-tls"] }
tokio = { version = "*", features = ["rt", "macros", "io-util"] }
futures = "*"
async-compression = { version = "*", features = ["tokio", "zstd"] }
tokio-util = { version = "*", features = ["compat", "io"] }
