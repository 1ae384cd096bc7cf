[package]
name = "figma_net_ok"
version = "0.1.0"
edition = "2021"
publish = false

[dependencies]
dialoguer = "0.11"
hyper = { version = "0.14", features = ["client", "runtime"] }
reqwest = { version = "0.11", default-features = false, features = ["json", "rustls-tls"] }
serde = { version = "1", features = ["derive"] }
tokio = { version = "1", features = ["rt-multi-thread"] }
trust-dns-resolver = "0.23"
yansi = "0.5"
