[package]
name = "force_alias"
version = "0.1.0"
edition = "2021"
publish = false

[dependencies]
serde = { version = "1", features = ["derive"] }
serde_json = "1"
hyper = "0.10"
iron = "0.6"
router = "0.6"
argparse = "0.2"
lazy_static = "1"
