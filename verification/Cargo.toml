[package]
name = "netflow_pipeline"
version = "0.1.0"
edition = "2021"
publish = false

[dependencies]
lz4_flex = "*"
tokio = { version = "*", features = ["full"] }
sqlx = { version = "*", features = ["postgres", "runtime-tokio"] }
serde = { version = "*", features = ["derive"] }
rand = "0.9"
chrono = "*"
anyhow = "*"

[dev-dependencies]
bincode2 = "*"
