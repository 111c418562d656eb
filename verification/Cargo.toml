[package]
name = "dpi_desync"
version = "0.1.0"
edition = "2021"
publish = false

[dependencies]
clap = "4"
memchr = "2"
socket2 = "0.5"
socks5-server = "*"
tokio = { version = "1", features = ["io-util", "macros", "net", "rt-multi-thread"] }
