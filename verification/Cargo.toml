[package]
name = "gpui_sys"
version = "0.1.0"
edition = "2021"
publish = false

[dependencies]
stacker = "0.1"
futures = "0.3"
tokio = { version = "1", features = ["rt-multi-thread", "net", "time", "sync"] }
reqwest = { version = "0.12", default-features = false, features = ["rustls-tls"] }
