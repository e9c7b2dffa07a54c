[package]
name = "oracle"
version = "0.2.1"
edition = "2021"
publish = false

[dependencies]
serde = { version = "=1.0.229", features = ["derive"] }
serde_json = "=1.0.154"
chrono = "=0.4.45"
uuid = { version = "=1.29.0", features = ["v4"] }
getrandom = "=0.4.3"
dirs = "=5.0.1"
reqwest = { version = "=0.12.28", default-features = false, features = ["rustls-tls"] }
tokio = { version = "=1.54.1", features = ["rt-multi-thread", "macros", "net", "time", "process", "io-util", "sync"] }
sysinfo = "=0.33.1"
parking_lot = "=0.12.5"
thiserror = "=2.0.21"
winreg = "=0.52.0"
