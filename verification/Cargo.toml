[package]
name = "poll_combinators"
version = "0.1.0"
edition = "2021"
publish = false

[dependencies]
futures-core = "0.3"
pin-project = "1"

[dev-dependencies]
futures = "0.3"
futures-lite = "1"
