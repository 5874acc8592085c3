[package]
name = "moka"
version = "0.1.0"
edition = "2021"
publish = false

[dependencies]
crossbeam-channel = "=0.5.17"
parking_lot = "=0.12.5"
portable-atomic = "=1.15.0"
shuttle = "=0.9.9"
shuttle-parking_lot = { version = "*", features = ["shuttle"] }
