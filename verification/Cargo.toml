[package]
name = "triangular_arbitrage_bot"
version = "0.1.0"
edition = "2021"
publish = false

[dependencies]
regex = "1"
url = "2"
serde = { version = "1", features = ["derive"] }
serde_json = "1"
tokio = { version = "1", features = ["rt-multi-thread", "macros", "signal", "sync", "time", "net"] }
tokio-tungstenite = "0.21"
tokio-util = "0.7"
futures-util = { version = "0.3", features = ["sink"] }
once_cell = "1"
log = "0.4"
env_logger = "0.11"
dotenv = "0.15"
