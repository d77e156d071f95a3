[package]
name = "bog"
version = "0.1.0"
edition = "2021"
publish = false

[dependencies]
serenity = "*"
tokio = { version = "*", features = ["macros", "rt-multi-thread"] }
reqwest = { version = "*", features = ["json"] }
serde = { version = "*", features = ["derive"] }
serde_json = "*"
toml = "*"
