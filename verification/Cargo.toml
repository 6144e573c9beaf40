[package]
name = "rune_agent"
version = "0.1.0"
edition = "2021"
publish = false

[dependencies]
anyhow = "*"
base64 = "*"
cached = "*"
native-tls = "*"
regex = "*"
reqwest = { version = "*", features = ["blocking", "native-tls"] }
rusqlite = { version = "*", features = ["bundled"] }
serde = { version = "*", features = ["derive"] }
serde_json = "*"
tungstenite = { version = "*", features = ["native-tls"] }
