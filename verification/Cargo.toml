[package]
name = "glyphix"
version = "0.1.0"
edition = "2021"
publish = false

[dependencies]
blake3 = "1"
crc32fast = "1"
reed-solomon = "0.2"
image = { version = "0.25", default-features = false, features = ["png"] }
clap = { version = "4", features = ["derive"] }
thiserror = "2"
