[package]
name = "labric_sync"
version = "0.1.0"
edition = "2021"
publish = false

[dependencies]
sha2 = "0.10"
uuid = { version = "1", features = ["v4"] }
log = "0.4"
machine-uid = "0.5"
notify = "8"
parking_lot = "0.12"
serde = { version = "1", features = ["derive"] }
serde_json = "1"
sysinfo = { version = "0.36", default-features = false, features = ["system"] }
tokio = { version = "1", default-features = false, features = ["sync"] }
