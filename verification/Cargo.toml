[package]
name = "server_bench"
version = "0.1.0"
edition = "2021"
publish = false

[dependencies]
rand = "0.8"
hyper = { version = "1", features = ["server", "http1", "http2"] }
hyper-util = { version = "0.1", features = ["tokio"] }
tokio = { version = "1", features = ["full"] }
moro = "0.4"
glommio = "0.9"
futures-lite = "2"
pretty_env_logger = "0.5"
