[package]
name = "convert_to_chrome_trace"
version = "0.1.0"
edition = "2021"
publish = false

[dependencies]
capnp = "0.14"
clap = "2"
serde_json = "1"
