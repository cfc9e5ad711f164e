[package]
name = "openplay"
version = "0.1.0"
edition = "2021"
publish = false

[dependencies]
plist = "1"
rand = "0.9"
sha2 = "0.10"
srp = "*"
tokio = { version = "1", features = ["net", "time", "rt-multi-thread", "macros", "io-util"] }
