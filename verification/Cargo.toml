[package]
name = "sofer"
version = "0.1.0"
edition = "2021"
publish = false

[dependencies]
uuid = { version = "1", features = ["v4"] }
rlua = "*"
xml-rs = "0.8"
clap = "2"
