[package]
name = "vjdownloader"
version = "0.1.0"
edition = "2021"
publish = false

[dependencies]
unicode-normalization = "=0.1.26"
url = "=2.5.8"
serde_json = "=1.0.154"
rusqlite = { version = "=0.41.0", features = ["bundled"] }
notify = "=8.2.1"
walkdir = "=2.5.0"
dirs = "=7.0.0"
time = { version = "=0.3.55", features = ["macros", "formatting", "local-offset"] }
eframe = { version = "=0.33.3", default-features = false, features = ["default_fonts", "glow", "x11"] }
arboard = { version = "=3.7.0", default-features = false }
