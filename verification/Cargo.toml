[package]
name = "pa_types"
version = "0.1.0"
edition = "2021"
publish = false

[dependencies]
derive_more = { version = "*", features = ["add", "add_assign"] }
serde = { version = "1", features = ["derive"] }
serde_json = "1"
