[package]
name = "tower_defense"
version = "0.1.0"
edition = "2021"
publish = false

[dependencies]
bevy = { version = "0.14", default-features = false }
axum = { version = "0.7" }
axum-extra = { version = "0.9", features = ["cookie"] }
rand = { version = "0.8" }
tokio = { version = "1", features = ["macros", "rt-multi-thread", "net"] }
