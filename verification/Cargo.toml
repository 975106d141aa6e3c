[package]
name = "rc_calque"
version = "0.1.0"
edition = "2021"
publish = false

[dependencies]
rust-stemmers = "1"
wordnet-lemmatizer = "*"
serde = { version = "1", features = ["derive"] }
serde_json = "1"
anyhow = "1"
thiserror = "1"
chrono = { version = "0.4", features = ["serde"] }
uuid = { version = "1", features = ["v4", "serde"] }
jsonwebtoken = "9"
axum = "0.7"
tokio = { version = "1", features = ["rt-multi-thread", "macros", "net"] }
tracing = "0.1"
sqlx = { version = "0.8", default-features = false, features = ["postgres", "runtime-tokio", "macros"] }
reqwest = { version = "0.12", default-features = false, features = ["json"] }
