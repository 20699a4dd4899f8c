[package]
name = "ytproxy"
version = "0.1.0"
edition = "2021"
publish = false

[dependencies]
argh = "*"
serde = { version = "*", features = ["derive"] }
third-wheel = "*"
tokio = { version = "*", features = ["macros", "rt-multi-thread"] }
toml = "*"
