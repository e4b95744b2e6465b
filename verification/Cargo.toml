[package]
name = "optijpeg"
version = "0.1.0"
edition = "2021"
publish = false

[dependencies]
anyhow = "1"
clap = { version = "4", features = ["derive"] }
lexical-sort = "0.3"
libc = "0.2"
mozjpeg-sys = "2"
rayon = "1"
tempfile = "3"
walkdir = "2"
