[package]
name = "banyan_s3"
version = "0.1.0"
edition = "2021"
publish = false

[dependencies]
chrono = "=0.4.45"
uuid = { version = "*", features = ["v4"] }
log = "*"
tokio = { version = "*", features = ["full"] }
hyper = { version = "*", features = ["full"] }
async-trait = "*"
futures = "*"
anyhow = "*"
clap = { version = "*", features = ["derive"] }
google-cloud-storage = "*"
firestore = "*"
serde = { version = "*", features = ["derive"] }
reqwest = "*"
bytes = "*"
