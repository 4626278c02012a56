[package]
name = "wikitui"
version = "0.1.0"
edition = "2021"
publish = false

[dependencies]
anyhow = "=1.0.104"
base64 = "=0.22.1"
chrono = { version = "=0.4.45", default-features = false, features = ["clock", "std"] }
crossterm = "=0.29.0"
directories = "=6.0.0"
hyphenation = { version = "=0.8.4", features = ["embed_en-us"] }
ratatui = { version = "=0.30.2", default-features = false, features = ["crossterm"] }
rusqlite = { version = "=0.41.1", features = ["bundled"] }
serde = { version = "=1.0.229", features = ["derive"] }
serde_json = "=1.0.154"
sha2 = "=0.10.9"
tokio = { version = "=1.54.1", features = ["macros", "rt", "rt-multi-thread", "sync", "time"] }
toml = "=0.8.23"
unicode-segmentation = "=1.13.3"
unicode-width = "=0.1.11"
zstd = "=0.14.3"
