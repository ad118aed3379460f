[package]
name = "syncrec"
version = "0.1.0"
edition = "2021"
publish = false

[dependencies]
anyhow = "=1.0.104"
bwavfile = "=2.0.1"
chrono = { version = "=0.4.45", default-features = false, features = ["clock", "std"] }
cpal = "=0.18.2"
iced = { version = "=0.14.0", default-features = false, features = ["canvas", "tiny-skia", "tokio", "x11"] }
rfd = { version = "=0.17.2", default-features = false, features = ["xdg-portal"] }
rsntp = "=4.1.2"
rtrb = "=0.3.6"
rubato = "=4.0.0"
serde = { version = "=1.0.229", features = ["derive"] }
serde_json = "=1.0.154"
