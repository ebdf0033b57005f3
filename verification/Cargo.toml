[package]
name = "beatcrate"
version = "0.1.0"
edition = "2021"
publish = false

[dependencies]
flate2 = "1"
roxmltree = "*"
base64 = "0.22"
rusqlite = { version = "*", features = ["bundled"] }
lofty = "*"
chrono = "0.4"
serde = { version = "1", features = ["derive"] }
serde_json = "1"
notify-debouncer-mini = "*"
symphonia = { version = "0.5", features = ["all"] }
ebur128 = "*"
