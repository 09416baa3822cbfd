[package]
name = "rsdd"
version = "0.1.0"
edition = "2021"

[dependencies]
dimacs = "0.2"
quickcheck = { version = "1", default-features = false }
rand = "0.8"
rustc-hash = "1.1"
