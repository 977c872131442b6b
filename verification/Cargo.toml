[package]
name = "display_fs"
version = "0.1.0"
edition = "2021"
publish = false

[dependencies]
ab_glyph = "0.2"
image = { version = "0.25", default-features = false }
imageproc = { version = "0.25", default-features = false }
serialport = { version = "4", default-features = false }
clap = { version = "4", features = ["derive"] }
thiserror = "2"
