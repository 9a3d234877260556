[package]
name = "chrometester"
version = "0.1.0"
edition = "2021"
publish = false

[dependencies]
serde_json = "1"
serde = { version = "1", features = ["derive"] }
reqwest = { version = "0.12", default-features = false, features = ["json", "stream", "rustls-tls"] }
futures-util = { version = "0.3", default-features = false, features = ["std"] }
tokio = { version = "1", features = ["rt"] }
zip = { version = "2", default-features = false, features = ["deflate"] }
sysinfo = { version = "0.30", default-features = false }
rfd = { version = "0.15", default-features = false, features = ["xdg-portal", "tokio"] }
winreg = "0.52"
