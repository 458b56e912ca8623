[package]
name = "pg_proxy"
version = "0.1.0"
edition = "2021"
publish = false

[dependencies]
constant_time_eq = "*"
md5 = "*"
rand = "*"
bytes = "*"
futures-util = "*"
log = "*"
tokio = { version = "*", features = ["full"] }
tokio-util = { version = "*", features = ["codec"] }
