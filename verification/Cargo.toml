[package]
name = "wbook_core"
version = "0.1.0"
edition = "2021"
publish = false

[dependencies]
slab = "=0.4.12"
regex = "=1.13.1"
tokio-util = "=0.7.20"
camino = { version = "=1.2.6", features = ["serde1"] }
str-utils = "=0.3.8"
unicode-bom = "=2.0.3"
chardetng = "=1.0.0"
encoding_rs = "=0.8.44"
jiff = "=0.2.39"
serde = { version = "=1.0.229", features = ["derive", "rc"] }
serde_json = "=1.0.154"
thiserror = "=2.0.21"
windows-sys = { version = "=0.61.2", features = ["Win32_Globalization"] }
