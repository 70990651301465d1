[package]
name = "ratproto"
version = "0.1.0"
edition = "2021"
publish = false

[dependencies]
color-eyre = "0.6"
hickory-resolver = "*"
maud = { version = "*", features = ["poem"] }
poem = "*"
reqwest = { version = "*", default-features = false, features = ["rustls-tls"] }
serde = { version = "1", features = ["derive"] }
serde_json = "1"
thiserror = "2"
tokio = { version = "1", features = ["macros", "rt-multi-thread"] }
