[package]
name = "muser_console"
version = "0.1.0"
edition = "2021"
publish = false

[dependencies]
axum = { version = "0.8", features = ["ws"] }
axum-server = { version = "0.8", default-features = false, features = ["tls-rustls-no-provider"] }
base64 = "0.22"
futures-util = "0.3"
getrandom = "0.3"
http-body-util = "0.1"
hyper-rustls = { version = "0.27", default-features = false, features = ["http1", "ring", "tls12"] }
hyper-util = { version = "0.1", features = ["client", "client-legacy", "http1", "tokio"] }
libc = "0.2"
qrcodegen = "1.8"
rusqlite = { version = "0.37", features = ["bundled"] }
rustls = { version = "0.23", default-features = false, features = ["ring", "std", "tls12"] }
rustls-native-certs = "0.8"
rustls-pemfile = "2"
serde = { version = "1", features = ["derive"] }
serde_json = { version = "1", features = ["preserve_order", "float_roundtrip"] }
sha2 = "0.10"
tokio = { version = "1", features = ["full"] }
tokio-tungstenite = { version = "0.28", default-features = false, features = ["connect", "handshake", "rustls-tls-native-roots"] }
toml = "0.9"
