[package]
name = "keyboard_optimizer"
version = "0.1.0"
edition = "2021"
publish = false

[dependencies]
rand = "=0.5.6"
byteorder = "=1.5.0"
serde = { version = "1", features = ["derive"] }
serde_json = "1"
