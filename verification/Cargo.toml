[package]
name = "wsmq"
version = "0.1.0"
edition = "2021"
publish = false

[dependencies]
sled = "=0.34.7"
chrono = { version = "=0.4.45", default-features = false, features = ["clock", "std"] }
serde = { version = "=1.0.229", features = ["derive"] }
serde_json = { version = "=1.0.154", features = ["preserve_order"] }
actix = "=0.13.5"
actix-http = { version = "=3.19.0", default-features = false, features = ["ws"] }
actix-web = { version = "=4.18.1", default-features = false, features = ["macros", "ws"] }
actix-web-actors = "=4.3.1"
clap = { version = "=3.2.25", default-features = false, features = ["std"] }
