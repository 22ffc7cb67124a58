[package]
name = "rsml_cli"
version = "0.1.0"
edition = "2021"
publish = false

[dependencies]
clap = { version = "=4.6.7", features = ["derive", "cargo"] }
crossbeam-channel = "=0.5.17"
jod-thread = "=1.0.0"
memofs = "=0.4.0"
rbx-rsml = "=0.1.14"
rbx_types = { version = "=2.0.0", features = ["serde"] }
serde = { version = "=1.0.229", features = ["derive"] }
serde_json = "=1.0.154"
