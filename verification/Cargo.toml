[package]
name = "open_runo"
version = "0.1.0"
edition = "2021"
publish = false

[dependencies]
serde = { version = "1", features = ["derive"] }
serde_json = "1"
sha1 = "0.10"
ring = "0.17"
uuid = { version = "1", features = ["v4"] }
chrono = "0.4"
hyper = { version = "1", features = ["full"] }
hyper-util = { version = "0.1", features = ["full"] }
http-body-util = "0.1"
bytes = "1"
tokio = { version = "1", features = ["full"] }
futures = "0.3"
flate2 = "1"
jsonwebtoken = "9"
reqwest = { version = "0.12", default-features = false, features = ["json", "rustls-tls", "multipart"] }
rcgen = { version = "0.13", default-features = false, features = ["crypto", "pem", "ring"] }
rustls = { version = "0.23", default-features = false, features = ["ring", "std", "logging", "tls12"] }
jsonschema = { version = "0.18", default-features = false }
thiserror = "1"
tracing = "0.1"
async-trait = "0.1"
once_cell = "1"
anyhow = "1"
redis = { version = "0.27", features = ["tokio-comp", "connection-manager"] }
wasm-bindgen = "0.2"
web-sys = { version = "0.3", features = ["Window", "Document", "Element", "Node", "Text"] }
