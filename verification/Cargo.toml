[package]
name = "kedu_reader"
version = "0.1.0"
edition = "2021"
publish = false

[dependencies]
ammonia = "=4.2.4"
base64 = "=0.22.1"
chardetng = "=0.1.17"
chrono = { version = "=0.4.45", default-features = false, features = ["clock", "std"] }
encoding_rs = "=0.8.44"
memmap2 = "=0.9.12"
percent-encoding = "=2.3.2"
pulldown-cmark = { version = "=0.12.2", default-features = false, features = ["html"] }
quick-xml = "=0.37.5"
regex = "=1.13.1"
serde = { version = "1", features = ["derive"] }
serde_json = "1"
tauri = { version = "2", default-features = false, features = ["tray-icon"] }
thiserror = "2"
ttf-parser = "=0.25.1"
zip = { version = "=2.6.1", default-features = false, features = ["deflate"] }
