[package]
name = "cch23"
version = "0.1.0"
edition = "2021"
publish = false

[dependencies]
base64 = "0.21"
chrono = "0.4"
htmlentity = "1"
image = { version = "0.24", default-features = false, features = ["png", "jpeg", "gif"] }
regex = "1"
sha256 = { version = "1", default-features = false }
ulid = "1"
uuid = "1"
log = "0.4"
reqwest = { version = "0.11", default-features = false, features = ["json", "rustls-tls"] }
rocket = { version = "0.5", features = ["json"] }
rocket_ws = "0.1"
s2 = "0.0.12"
serde = { version = "1", features = ["derive"] }
serde_json = "1"
sqlx = { version = "0.7", default-features = false, features = ["runtime-tokio", "postgres", "macros"] }
tar = "0.4"
tempfile = "3"
tokio = { version = "1", features = ["sync", "macros", "rt-multi-thread"] }
