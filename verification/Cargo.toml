[package]
name = "sniflow"
version = "0.1.0"
edition = "2021"
publish = false

[dependencies]
byteorder = "1"
smoltcp = "*"
tls-parser = "*"
pcap = "*"
clap = { version = "4", features = ["derive"] }
eyre = "*"
libc = "0.2"
signalbool = "*"
termion = "*"
tracing = "0.1"
tracing-subscriber = { version = "0.3", features = ["env-filter"] }
