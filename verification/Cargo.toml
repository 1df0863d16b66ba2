[package]
name = "changelog_core"
version = "0.1.0"
edition = "2021"
publish = false

[dependencies]
hex = "0.4"
postcard = { version = "1", default-features = false, features = ["alloc"] }
serde = { version = "1", features = ["derive"] }
