[package]
name = "pullauta"
version = "0.1.0"
edition = "2021"
publish = false

[dependencies]
anyhow = "1"
bincode-next = { version = "*", features = ["serde"] }
env_logger = "0.11"
image = { version = "0.25", default-features = false, features = ["png", "jpeg"] }
imageproc = { version = "0.25", default-features = false }
las = "0.9"
log = "0.4"
png = "0.17"
rustc-hash = "2"
serde = { version = "1", features = ["derive"] }
shapefile = "0.6"
tiny-skia = "0.11"
zip = { version = "2", default-features = false, features = ["deflate"] }
