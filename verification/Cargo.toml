[package]
name = "server_utils"
version = "0.1.0"
edition = "2021"
publish = false

[dependencies]
http = "1"
itertools = "0.14"
hyper = { version = "1", features = ["http1", "server"] }
hyper-util = { version = "0.1", features = ["tokio"] }
http-body-util = "0.1"
tokio = { version = "1", features = ["fs", "macros", "net", "rt-multi-thread", "sync"] }
tokio-util = { version = "0.7", features = ["io"] }
futures-util = "0.3"
serde_json = "1"
reqwest = { version = "0.12", default-features = false }
