[package]
name = "bee_solver"
version = "0.1.0"
edition = "2021"
publish = false

[dependencies]
ansi_term = "*"
clap = { version = "*", features = ["derive"] }
gloo-utils = { version = "*", features = ["serde"] }
itertools = "*"
libflate = "*"
regex = "*"
serde = { version = "*", features = ["derive"] }
thiserror = "*"
wasm-bindgen = "*"
