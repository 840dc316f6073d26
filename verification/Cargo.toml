[package]
name = "syncr"
version = "0.1.0"
edition = "2021"
publish = false

[dependencies]
base64 = "0.13"
md5 = "0.7"
bytes = "0.4"
futures = "0.1"
tokio-core = "0.1"
tokio-io = "0.1"
tokio-proto = "0.1"
tokio-service = "0.1"
tempdir = "0.3"
