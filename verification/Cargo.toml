[package]
name = "catalog_core"
version = "0.1.0"
edition = "2021"
publish = false

[dependencies]
accept-language = "=3.1.0"
actix-cors = "=0.7.2"
actix-web = { version = "=4.15.0", default-features = false, features = ["macros"] }
argon2 = { version = "=0.5.3", features = ["std"] }
chrono = { version = "=0.4.45", features = ["serde"] }
diesel = { version = "=2.3.14", features = ["postgres", "r2d2", "uuid", "chrono"] }
dotenv = "=0.15.0"
jsonwebtoken = "=11.1.0"
redis = "=1.7.1"
serde = { version = "=1.0.229", features = ["derive"] }
serde_json = "=1.0.151"
uuid = { version = "=1.27.0", features = ["v4", "serde"] }
