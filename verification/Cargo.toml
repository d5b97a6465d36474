[package]
name = "order_pipeline"
version = "0.1.0"
edition = "2021"
publish = false

[dependencies]
chrono = "0.4"
chrono-tz = "*"
rand = "0.8"
num_cpus = "1"
serde = { version = "1", features = ["derive"] }
serde_json = "1"
bytes = "1"
futures = "0.3"
tokio = { version = "1", features = ["full"] }
async-nats = "*"
reqwest = { version = "0.12", default-features = false, features = ["json"] }
actix-web = { version = "4", default-features = false, features = ["macros"] }
diesel = { version = "2", features = ["postgres", "r2d2", "chrono"] }
dotenv = "*"
env_logger = "*"
