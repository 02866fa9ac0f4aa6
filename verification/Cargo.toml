[package]
name = "dog_tracker"
version = "0.1.0"
edition = "2021"
publish = false

[dependencies]
chrono = { version = "=0.4.45", default-features = false, features = ["std", "alloc", "clock"] }
mime_guess = "=2.0.5"
axum = "=0.8.9"
sea-orm = { version = "=1.1.20", default-features = false, features = ["macros", "sqlx-sqlite", "runtime-tokio-rustls"] }
serde = { version = "=1.0.229", features = ["derive"] }
tokio = { version = "=1.54.1", features = ["full"] }
tokio-stream = { version = "=0.1.19", features = ["sync"] }
futures = "=0.3.34"
rust-embed = { version = "=8.13.0", features = ["interpolate-folder-path"] }
