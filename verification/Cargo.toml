[package]
name = "pgo_co"
version = "0.1.0"
edition = "2021"
publish = false

[dependencies]
rand = "=0.8.8"
serde = { version = "=1.0.229", features = ["derive"] }
serde_json = "=1.0.154"
clap = { version = "=3.2.25", features = ["derive"] }
llvm-sys = { version = "=231.0.1", features = ["no-llvm-linking"] }
libc = "=0.2.191"
lazy_static = "=1.5.1"
