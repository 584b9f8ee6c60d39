[package]
name = "sandoo"
version = "0.1.0"
edition = "2021"
publish = false

[dependencies]
anyhow = "1"
chrono = "0.4"
csv = "1"
ethers = { version = "2.0", default-features = false, features = ["ws"] }
fern = { version = "0.6", features = ["colored"] }
indicatif = "0.17"
itertools = "0.11"
log = "0.4"
serde = { version = "1", features = ["derive"] }
