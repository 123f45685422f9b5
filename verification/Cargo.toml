[package]
name = "ws_tool"
version = "0.1.0"
edition = "2021"
publish = false

[dependencies]
bytes = "1"
rand = "0.8"
sha1 = "0.10"
base64 = "0.13"
simdutf8 = "0.1"
httparse = "1"
http = "1"
thiserror = "1"
tokio = { version = "1", features = ["net", "io-util", "rt", "macros"] }
libz-sys = { version = "1", features = ["static"] }
