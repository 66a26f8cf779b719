[package]
name = "ocy_core"
version = "0.1.0"
edition = "2021"
publish = false

[dependencies]
glob = "=0.3.4"
eyre = "=0.6.14"
colored = "=2.2.0"
gumdrop = "=0.8.1"
indicatif = "=0.16.2"
# Not used by this crate itself: indicatif 0.16 needs the `std` feature of
# console 0.16 and does not ask for it.
console = { version = "=0.16.6", features = ["std"] }
