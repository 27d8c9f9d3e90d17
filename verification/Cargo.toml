[package]
name = "gpui_ide"
version = "0.1.0"
edition = "2021"
publish = false

[dependencies]
anyhow = "1"
serde = { version = "1", features = ["derive"] }
serde_json = "1"
semver = "1"
unicode-segmentation = "1"
serialport = { version = "4", default-features = false }
fontdb = "*"
jsonschema = { version = "*", default-features = false }
sha2 = "0.10"
