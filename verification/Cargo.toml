[package]
name = "notes"
version = "0.1.0"
edition = "2021"
publish = false

[dependencies]
regex = "1"
rand = "0.8"
clap = "2"
open = "5"
rustc-serialize = "0.3"
bincode = { version = "0.6", default-features = false, features = ["rustc-serialize"] }
