[package]
name = "starry"
version = "0.1.0"
edition = "2021"
publish = false

[dependencies]
anyhow = "1"
argh = "*"
byo-graphql = "*"
chrono = { version = "0.4", features = ["serde"] }
cli-log = "*"
csv = "1"
directories-next = "*"
futures = "*"
minimad = "*"
serde = { version = "1", features = ["derive"] }
serde_json = "1"
simplelog = "*"
termimad = "*"
tokio = { version = "1", features = ["rt-multi-thread", "macros"] }
