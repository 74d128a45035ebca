[package]
name = "http_conn_pool"
version = "0.1.0"
edition = "2021"
publish = false

[dependencies]
hyper = { version = "1", features = ["client", "http2"] }
hyper-util = { version = "0.1", features = ["tokio"] }
tokio = { version = "1", features = ["rt", "time", "net"] }
parking_lot = "0.12"
rand = "0.8"
uuid = "1"
tracing = "0.1"
