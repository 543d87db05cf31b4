[package]
name = "lightflus"
version = "0.1.0"
edition = "2021"
publish = false

[dependencies]
actix-web = "*"
bytes = "*"
futures-executor = "*"
grpcio = "*"
log = "*"
rmp-serde = "*"
serde = { version = "*", features = ["derive"] }
serde_json = "*"
tokio = { version = "*", features = ["sync", "rt", "rt-multi-thread", "macros", "time"] }
tonic = "*"
tracing = "*"
v8 = "*"
