[package]
name = "subscribe_hn"
version = "0.1.0"
edition = "2021"
publish = false

[dependencies]
dirs = "=7.0.0"
serde = { version = "=1.0.229", features = ["derive"] }
reqwest = { version = "=0.12.28", default-features = false, features = ["json", "rustls-tls"] }
tokio = { version = "=1.54.1", features = ["macros", "rt-multi-thread", "sync", "time"] }
teloxide = { version = "=0.17.0", default-features = false, features = ["macros", "ctrlc_handler", "rustls"] }
takecell = "=0.1.1"
