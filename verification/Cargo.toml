[package]
name = "pptx_index"
version = "0.1.0"
edition = "2021"
publish = false

[dependencies]
xmltree = "*"
serde = { version = "*", features = ["derive"] }
serde_json = "*"
clap = { version = "*", features = ["derive"] }
zip = { version = "*", default-features = false, features = ["deflate"] }
log = "*"
env_logger = "*"
