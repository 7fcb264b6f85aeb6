[package]
name = "sarascript"
version = "0.1.0"
edition = "2021"
publish = false

[dependencies]
urlencoding = "*"
http = "*"
tokio = { version = "*", features = ["full"] }
hyper = { version = "*", features = ["client", "server", "http1"] }
http-body = "*"
http-body-util = "*"
bytes = "*"
hickory-resolver = "*"
tokio-rustls = "*"
rustls-pemfile = "*"
webpki-roots = "*"
config = "*"
daemonize = "*"
log = "*"
simplelog = "*"
libc = "*"
