[package]
name = "image_meta"
version = "0.1.0"
edition = "2021"
publish = false

[dependencies]
byteorder = "1"
clap = { version = "4", features = ["derive"] }
regex = "1"
strum = { version = "0.26", features = ["derive"] }
thiserror = "1"
