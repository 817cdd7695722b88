[package]
name = "phonemoro"
version = "0.1.0"
edition = "2021"
publish = false

[dependencies]
anyhow = "=1.0.104"
clap = "=4.6.7"
phonetisaurus-g2p = "=0.1.1"
serde = { version = "=1.0.229", features = ["derive"] }
serde_json = "=1.0.151"
tokenizers = "=0.23.2"

[dev-dependencies]
rustfst = "=1.3.1"
