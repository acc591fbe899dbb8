[package]
name = "bears"
version = "0.1.0"
edition = "2021"
publish = false

[dependencies]
chrono = { version = "*", features = ["serde"] }
rand = "*"
serde = { version = "*", features = ["derive"] }
serde_json = "*"
serde_yml = "*"
serde_yaml = "*"
clap = { version = "*", features = ["derive"] }
clap_complete = "*"
owo-colors = "*"
shell-words = "*"
thiserror = "*"
