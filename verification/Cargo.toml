[package]
name = "opentako"
version = "0.1.0"
edition = "2021"
publish = false

[dependencies]
serde = { version = "1", features = ["derive"] }
serde_json = "1"
image = { version = "0.25", default-features = false, features = ["png"] }
ort = { version = "2.0.0-rc.10", default-features = false, features = ["std", "load-dynamic"] }
axum = { version = "0.7", features = ["ws"] }
tokio = { version = "1", features = ["rt-multi-thread", "net", "macros"] }
tower-http = { version = "0.5", features = ["cors", "fs"] }
tao = "0.30"
tray-icon = "0.19"
webbrowser = "1"
