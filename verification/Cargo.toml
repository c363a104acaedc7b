[package]
name = "serial_monitor"
version = "0.1.0"
edition = "2021"
publish = false

[dependencies]
log = "*"
preferences = "*"
serde = { version = "*", features = ["derive"] }
serialport = { version = "*", default-features = false }
