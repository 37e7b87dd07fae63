[package]
name = "paint"
version = "0.1.0"
edition = "2021"
publish = false

[dependencies]
hyper = { version = "=0.14.32", features = ["client", "http1", "tcp"] }
reqwest = { version = "=0.11.27", default-features = false, features = ["json"] }
crossbeam-skiplist = "=0.1.3"
miette = { version = "=5.10.0", features = ["fancy-no-backtrace"] }
serde = { version = "=1.0.229", features = ["derive"] }
serde_json = "=1.0.154"
serde_urlencoded = "0.7"
bincode = "=1.3.3"
chrono = { version = "=0.4.45", features = ["serde"] }
futures = "=0.3.34"
futures-timer = "=3.0.4"
thiserror = "=1.0.69"
pin-project = "=1.1.13"
tracing = "=0.1.44"
heapless = "=0.7.17"
