[package]
name = "ausgarde"
version = "0.1.0"
edition = "2021"
publish = false

[dependencies]
serde = { version = "1", features = ["derive"] }
serde_json = "1"
jsonwebtoken = "9"
chrono = "0.4"
argon2 = "0.5"
rand_core = { version = "0.6", features = ["getrandom"] }
nanoid = "0.4"
thiserror = "1"
uuid = { version = "1", features = ["v4"] }
actix-web = { version = "4", default-features = false, features = ["macros"] }
tokio-postgres = { version = "0.7", features = ["with-uuid-1"] }
deadpool-postgres = "0.14"
postgres-types = "0.2"
bytes = "1"
config = { version = "0.14", default-features = false }
tracing = "0.1"
tracing-subscriber = "0.3"
