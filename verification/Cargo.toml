[package]
name = "component_graph"
version = "0.1.0"
edition = "2021"
publish = false

[dependencies]
anyhow = "1"
chrono = { version = "0.4", features = ["serde"] }
gloo-net = "*"
serde = { version = "1", features = ["derive"] }
serde_json = "1"
sqlx = { version = "*", default-features = false, features = ["runtime-tokio", "postgres", "migrate"] }
thiserror = "*"
tracing = "*"
uuid = { version = "1", features = ["serde", "v4"] }
