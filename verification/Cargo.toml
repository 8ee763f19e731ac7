[package]
name = "draugur"
version = "0.1.0"
edition = "2021"
publish = false

[dependencies]
chrono = "*"
colog = "*"
log = "*"
once_cell = "*"
reqwest = { version = "*", features = ["json"] }
serde = { version = "*", features = ["derive"] }
serde_json = "*"
serde_with = "*"
serenity = "*"
tokio = { version = "*", features = ["macros", "rt-multi-thread", "time", "sync", "fs"] }
toml = "*"
tungstenite = "*"
