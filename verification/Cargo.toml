[package]
name = "kollaps"
version = "0.1.0"
edition = "2021"
publish = false

[dependencies]
regex = "1"
tokio = { version = "1", features = ["full"] }
tracing = "0.1"
tracing-subscriber = "0.3"
clap = { version = "4", features = ["derive"] }
roxmltree = "*"
rand = "0.9"
rand_pcg = "0.9"
random-string = "*"
subprocess = "*"
pnet = "*"
libc = "0.2"
libloading = "*"
