[package]
name = "scx_rustlib"
version = "0.1.0"
edition = "2021"
publish = false

[dependencies]
scx_loader = "*"
tokio = { version = "*", features = ["rt-multi-thread"] }
zbus = "*"

[dev-dependencies]
toml = "*"
