[package]
name = "fuzzcheck_view"
version = "0.1.0"
edition = "2021"
publish = false

[dependencies]
getopts = "0.2"
rocket = { version = "0.5", features = ["json"] }
rustc-demangle = "0.1"
serde = { version = "1", features = ["derive"] }
serde_json = "1"
