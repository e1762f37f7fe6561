[package]
name = "tape"
version = "0.1.2"
edition = "2021"
publish = false

[dependencies]
anyhow = "1"
base64 = "0.22"
brotli = "*"
bytes = "1"
clap = { version = "4", features = ["derive"] }
flate2 = "1"
hex = "0.4"
http-body-util = "0.1"
hyper = { version = "1", features = ["server", "client", "http1"] }
hyper-rustls = { version = "0.27", default-features = false, features = ["http1", "ring", "native-tokio"] }
hyper-util = { version = "0.1", features = ["client", "client-legacy", "http1", "tokio"] }
mime_guess = "2"
regex = "1"
rustls = { version = "0.23", default-features = false, features = ["ring", "std", "tls12"] }
serde = { version = "1", features = ["derive"] }
serde_json = "1"
sha2 = "0.10"
time = { version = "0.3", features = ["formatting", "local-offset", "macros"] }
tokio = { version = "1", features = ["full"] }
toml = "0.9"
tracing = "0.1"
tracing-subscriber = { version = "0.3", features = ["env-filter"] }
