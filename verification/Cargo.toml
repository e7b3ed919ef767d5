[package]
name = "credvault"
version = "0.1.0"
edition = "2021"
publish = false

[dependencies]
actix-cors = "*"
actix-governor = "*"
actix-web = "4"
bcrypt = "=0.19.3"
chrono = "=0.4.45"
dotenv = "*"
env_logger = "*"
futures = "0.3"
hex = "=0.4.3"
jsonwebtoken = "=9.3.1"
rand = "=0.8.8"
serde = { version = "1", features = ["derive"] }
sha2 = "0.10"
uuid = { version = "=1.27.0", features = ["v4", "serde"] }
