[package]
name = "dkp_ledger"
version = "0.1.0"
edition = "2021"
publish = false

[dependencies]
chrono = "*"
google-sheets4 = "*"
serde_json = "*"
tokio = { version = "*", features = ["macros", "rt-multi-thread"] }
