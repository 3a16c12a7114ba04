[package]
name = "varve"
version = "0.1.0"
edition = "2021"
publish = false

[dependencies]
sha2 = "=0.10.9"
jiff = "=0.2.39"
ryu = "=1.0.23"
serde = { version = "=1.0.229", features = ["derive"] }
serde_json = "=1.0.154"
age = { version = "=0.11.5", features = ["async"] }
object_store = "=0.14.2"
tokio = { version = "=1.54.1", features = ["io-util", "rt", "macros", "sync"] }
tokio-util = { version = "=0.7.20", features = ["compat", "io", "io-util"] }
futures = "=0.3.34"
thiserror = "=2.0.21"
