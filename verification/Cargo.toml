[package]
name = "walkmesh"
version = "0.1.0"
edition = "2021"
publish = false

[dependencies]
glam = "=0.24.2"
rfd = { version = "0.11", default-features = false, features = ["xdg-portal"] }
serde = { version = "1", features = ["derive"] }
serde_json = "1"
