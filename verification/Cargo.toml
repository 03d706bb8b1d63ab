[package]
name = "blood_money"
version = "0.1.0"
edition = "2021"
publish = false

[dependencies]
hyper = "0.10"
serde = { version = "1", features = ["derive"] }
serde_json = "1"
scoped_threadpool = "0.1"
