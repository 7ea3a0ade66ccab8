[package]
name = "avet"
version = "0.1.0"
edition = "2021"
publish = false

[dependencies]
anyhow = "=1.0.104"
av-scenechange = { version = "=0.25.0", default-features = false, features = ["threading"] }
dolby_vision = "=3.4.0"
serde = { version = "1", features = ["derive"] }
serde_json = "=1.0.154"
signal-hook = "=0.4.6"
toml = "=1.1.8"
tracing = "=0.1.44"
tracing-subscriber = { version = "=0.3.23", features = ["env-filter"] }
y4m = "=0.8.0"
