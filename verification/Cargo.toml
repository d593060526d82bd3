[package]
name = "imageguide"
version = "0.1.0"
edition = "2021"
publish = false

[dependencies]
cargo-packager-updater = "=0.2.3"
futures = "0.3"
image = "=0.25.10"
parking_lot = "0.12"
ravif = { version = "=0.13.0", default-features = false, features = ["threading"] }
rfd = { version = "=0.17.2", default-features = false, features = ["xdg-portal"] }
rgb = "=0.8.53"
serde = { version = "1", features = ["derive"] }
serde_json = "1"
ureq = { version = "=2.12.1", features = ["json"] }
walkdir = "=2.5.0"
webp = "=0.3.1"
