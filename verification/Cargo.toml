[package]
name = "ros2dds_routes"
version = "0.1.0"
edition = "2021"
publish = false

[dependencies]
zenoh = { version = "1", default-features = false, features = ["transport_tcp", "unstable"] }
zenoh-ext = { version = "1", default-features = false, features = ["unstable"] }
serde = { version = "1", features = ["derive"] }
serde_json = "1"
flume = "0.11"
tokio = { version = "1", features = ["rt", "rt-multi-thread", "time", "macros"] }
tracing = "0.1"
cyclors = "*"
