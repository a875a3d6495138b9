[package]
name = "signals_im"
version = "0.1.0"
edition = "2021"
publish = false

[dependencies]
futures = "0.3"
futures-executor = "0.3"
futures-signals = "0.3"
futures-util = "0.3"
parking_lot = "0.12"
pin-project = "1"
pin-utils = "0.1"

[dev-dependencies]
rand = "0.8"
