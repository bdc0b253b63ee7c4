[package]
name = "rhp"
version = "0.1.0"
edition = "2021"
publish = false

[dependencies]
serde_json = "1"
serde_urlencoded = "0.7"
anyhow = "1"
axum = { version = "0.8", features = ["ws", "macros"] }
tokio = { version = "1", features = ["full"] }
tower = { version = "0.5", features = ["util"] }
tower-http = { version = "0.6", features = ["fs", "trace"] }
tracing = "0.1"
tracing-subscriber = "0.3"
async-stream = "0.3"
notify = "8"
dotenv = "0.15"
clap = { version = "4", features = ["derive", "env"] }
rquickjs = { version = "*", features = ["futures", "parallel", "macro"] }
sqlx = { version = "*", features = ["runtime-tokio", "any", "sqlite", "postgres"] }
uuid = { version = "1", features = ["v4"] }

[dev-dependencies]
logos = "*"
