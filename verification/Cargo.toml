[package]
name = "extractor"
version = "0.1.0"
edition = "2021"
publish = false

[dependencies]
ethers = { version = "2", default-features = false }
num-bigint = "0.4"
reqwest = { version = "0.11", default-features = false, features = ["json"] }
serde_json = "1"
tokio = { version = "1", features = ["macros", "rt-multi-thread"] }
dotenv = "0.15"
git2 = { version = "*", default-features = false }
yaml-rust = "0.4"
