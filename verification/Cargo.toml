[package]
name = "spotify_exporter"
version = "0.1.0"
edition = "2021"
publish = false

[dependencies]
base64 = "*"
url = "*"
rouille = "*"
webbrowser = "*"
serde = { version = "*", features = ["derive"] }
serde_json = "*"
chrono = "*"
reqwest = { version = "*", default-features = false, features = ["blocking"] }
