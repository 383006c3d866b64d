[package]
name = "battery_log"
version = "3.3.1"
edition = "2021"
publish = false

[dependencies]
ab_glyph = "0.2"
chrono = { version = "0.4", default-features = false, features = ["clock", "std"] }
datamatrix = "0.3"
image = { version = "0.25", default-features = false, features = ["png"] }
pulldown-cmark = { version = "0.12", default-features = false, features = ["html"] }
rusqlite = { version = "0.32", features = ["bundled", "backup"] }
serde = { version = "1", features = ["derive"] }
serde_json = "1"
tera = { version = "1", default-features = false }
url = "2"
