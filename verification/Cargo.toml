[package]
name = "tnt_delivery_bot"
version = "0.1.0"
edition = "2021"
publish = false

[dependencies]
rand = "=0.10.3"
chrono = { version = "=0.4.45", default-features = false, features = ["clock"] }
teloxide = { version = "=0.17.0", default-features = false, features = ["macros", "rustls", "ctrlc_handler"] }
takecell = "=0.1.1"
tokio = { version = "=1.54.1", features = ["rt-multi-thread", "macros", "time", "signal", "sync"] }
tokio-util = "=0.7.20"
reqwest = { version = "=0.12.28", default-features = false, features = ["json", "rustls-tls"] }
rusqlite = { version = "=0.41.1", features = ["bundled"] }
serde = { version = "=1.0.229", features = ["derive"] }
serde_json = "=1.0.154"
anyhow = "=1.0.104"
log = "=0.4.35"
simple_logger = { version = "=5.2.0", default-features = false }
dotenvy = "=0.15.7"
async-trait = "=0.1.92"

[dev-dependencies]
serde_json = "=1.0.154"
