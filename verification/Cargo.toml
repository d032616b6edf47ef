[package]
name = "maths_appli_simulation"
version = "0.1.0"
edition = "2021"
publish = false

[dependencies]
image = { version = "=0.25.10", default-features = false, features = ["png"] }
rand = "=0.9.5"
serde = { version = "1", features = ["derive"] }
serde_json = "1"
crossterm = "=0.28.1"
