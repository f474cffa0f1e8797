[package]
name = "icmp_echo"
version = "0.1.0"
edition = "2021"
publish = false

[dependencies]
socket2 = { version = "=0.6.5", features = ["all"] }
libc = "=0.2.190"
