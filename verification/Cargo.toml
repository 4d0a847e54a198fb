[package]
name = "direct_http"
version = "0.1.0"
edition = "2021"
publish = false

[dependencies]
async-trait = "0.1"
serde = { version = "1", features = ["derive"] }
serde_json = "1"
smol = "*"
tokio = { version = "1", features = ["macros", "rt", "rt-multi-thread"] }
