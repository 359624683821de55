[package]
name = "spacewise_core"
version = "0.1.0"
edition = "2021"
publish = false

[dependencies]
uuid = { version = "=1.29.0", features = ["v4", "serde"] }
getrandom = "=0.4.3"
chrono = { version = "=0.4.45", features = ["serde"] }
blake3 = "=1.8.7"
serde = { version = "=1.0.229", features = ["derive"] }
serde_json = "=1.0.154"
anyhow = "=1.0.104"
thiserror = "=1.0.69"
walkdir = "=2.5.0"
same-file = "=1.0.6"
rayon = "=1.12.0"
rusqlite = { version = "=0.32.1", features = ["bundled"] }
trash = "=5.2.9"
winreg = "=0.52.0"

[dev-dependencies]
tempfile = "=3.27.0"
