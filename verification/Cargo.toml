[package]
name = "supercluster"
version = "0.1.0"
edition = "2021"
publish = false

[dependencies]
geo-index = "0.1.1"
thiserror = "1"
serde = { version = "1", features = ["derive"] }
serde_json = "1"
