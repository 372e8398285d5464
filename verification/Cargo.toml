[package]
name = "petro_meg"
version = "0.1.0"
edition = "2021"
publish = false

[dependencies]
aes = "0.8"
cbc = "0.1"
crc32fast = "1"
clap = { version = "4", features = ["derive"] }
globset = "0.4"
regex = "1"
thiserror = "2"
tracing = "0.1"
tracing-subscriber = "0.3"
