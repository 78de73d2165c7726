[package]
name = "hocon"
version = "0.1.0"
edition = "2021"
publish = false

[dependencies]
uuid = { version = "1", features = ["v4"] }
java-properties = "2"
nom = "7"
serde = "1"
serde_path_to_error = "*"
