[package]
name = "llm_json_formatter"
version = "0.1.3"
edition = "2021"
publish = false

[dependencies]
serde_json = { version = "1", features = ["preserve_order"] }
clap = { version = "4", features = ["derive"] }
