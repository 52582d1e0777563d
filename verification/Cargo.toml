[package]
name = "noyalib"
version = "0.1.0"
edition = "2021"
publish = false

[dependencies]
arbitrary = { version = "1", features = ["derive"] }
ariadne = "*"
libfuzzer-sys = "*"
miette = "*"
rustix = { version = "1", features = ["fs"] }
