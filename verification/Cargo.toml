[package]
name = "stepflow_execution"
version = "0.1.0"
edition = "2021"
publish = false

[dependencies]
bit-set = "0.8"
nonempty = "*"
serde_json = "1"
serde = { version = "1", features = ["derive"] }
rmp-serde = "1"
uuid = "1"
bytes = "1"
thiserror = "2"
