[package]
name = "waterfall"
version = "0.1.0"
edition = "2021"
publish = false

[dependencies]
clap = { version = "=4.6.7", features = ["derive"] }
elements = "=0.27.0"
elements-miniscript = "=0.5.0"
hyper = { version = "=1.12.0", features = ["http1", "server"] }
hyper-util = { version = "=0.1.21", features = ["tokio"] }
tokio = { version = "=1.53.2", features = ["io-util", "macros", "net", "rt-multi-thread", "time"] }
