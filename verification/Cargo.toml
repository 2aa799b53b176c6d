[package]
name = "borg_extract"
version = "0.1.0"
edition = "2021"
publish = false

[dependencies]
byteorder = "1"
configparser = "3"
eyre = "0.6"
lz4 = "1"
rmp-serde = "1"
serde = { version = "1", features = ["derive"] }
