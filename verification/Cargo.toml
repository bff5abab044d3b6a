[package]
name = "deps"
version = "0.1.0"
edition = "2021"
publish = false

[dependencies]
semver = "=0.11.0"
serde = { version = "=1.0.229", features = ["derive"] }
serde_json = "=1.0.151"
anyhow = "=1.0.104"
thiserror = "=1.0.69"
async-trait = "=0.1.92"
log = "=0.4.34"
env_logger = "=0.10.2"
reqwest = { version = "=0.11.27", features = ["json"] }
tokio = { version = "=1.53.2", features = ["macros", "rt-multi-thread"] }
naivebayes = "=0.1.2"
