[package]
name = "workspace_state_graph"
version = "0.1.0"
edition = "2021"
publish = false

[dependencies]
iac-forge = "*"
serde = { version = "1", features = ["derive"] }
serde_json = "1"
thiserror = "*"
