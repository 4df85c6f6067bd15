[package]
name = "fastcull_core"
version = "0.1.0"
edition = "2021"
publish = false

[dependencies]
blake3 = "1"
caseless = "*"
directories = "*"
fast_image_resize = "5"
fs2 = "0.4"
jpeg-encoder = "*"
rawler = "*"
rusqlite = { version = "*", features = ["bundled"] }
serde = { version = "1", features = ["derive"] }
serde_json = "1"
thiserror = "2"
toml = "*"
zune-jpeg = "0.4"
