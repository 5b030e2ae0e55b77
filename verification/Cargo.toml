[package]
name = "rollman_elo"
version = "0.1.0"
edition = "2021"
publish = false

[dependencies]
rand = "*"
serde = { version = "*", features = ["derive"] }
serde_json = "*"
ureq = { version = "*", features = ["json"] }
chrono = "*"
color-eyre = "*"
ordered-float = "*"
