[package]
name = "notus"
version = "0.1.0"
edition = "2021"
publish = false

[dependencies]
anyhow = "*"
chrono = "*"
fs2 = "*"
fs_extra = "*"
serde = { version = "*", features = ["derive"] }
thiserror = "*"
