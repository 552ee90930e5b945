[package]
name = "order_book"
version = "0.1.0"
edition = "2021"
publish = false

[dependencies]
numwit = "*"
thiserror = "1"
tracing = "0.1"
uuid = { version = "1", features = ["v4"] }
