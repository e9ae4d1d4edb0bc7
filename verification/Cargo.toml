[package]
name = "hedu"
version = "0.1.0"
edition = "2021"
publish = false

[dependencies]
libpt = { version = "=0.7.4", features = ["bintols"] }
clap = { version = "=4.6.7", features = ["derive"] }
