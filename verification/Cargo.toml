[package]
name = "configy_api"
version = "0.1.0"
edition = "2021"
publish = false

[dependencies]
axum = "*"
serde = { version = "*", features = ["derive"] }
serde_yaml_ng = "*"
tokio = { version = "*", features = ["macros", "rt-multi-thread", "signal", "net"] }
