[package]
name = "knawledge"
version = "0.1.0"
edition = "2021"
publish = false

[dependencies]
async-recursion = "1"
axum = "0.7"
chrono = "0.4"
clap = { version = "4", features = ["derive"] }
dotenv = "0.15"
lazy_static = "1"
minijinja = "2"
notify = "6"
serde = { version = "1", features = ["derive"] }
serde_yaml = "0.9"
sqlx = { version = "0.8", default-features = false, features = ["runtime-tokio", "postgres", "uuid", "chrono"] }
thiserror = "1"
tokio = { version = "1", features = ["rt-multi-thread", "macros", "net"] }
tracing = "0.1"
tracing-subscriber = "0.3"
uuid = { version = "1", features = ["v4"] }
