[package]
name = "school_roster"
version = "0.1.0"
edition = "2021"
publish = false

[dependencies]
bincode = "=1.3.3"
calamine = "=0.22.1"
chrono = { version = "=0.4.45", default-features = false, features = ["clock"] }
futures = "=0.3.34"
reqwest = { version = "0.11", default-features = false, features = ["json", "rustls-tls"] }
serde = { version = "=1.0.229", features = ["derive"] }
serde_json = "=1.0.154"
sqlx = { version = "0.6", default-features = false, features = ["macros", "migrate", "runtime-tokio-rustls", "sqlite"] }
thiserror = "=1.0.69"
tokio = { version = "=1.54.1", features = ["macros", "rt-multi-thread", "sync"] }
