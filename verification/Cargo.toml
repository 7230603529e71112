[package]
name = "lanqr"
version = "0.1.0"
edition = "2021"
publish = false

[dependencies]
rand = "=0.8.8"
qrcode = { version = "=0.14.1", default-features = false, features = ["image"] }
image = { version = "=0.25.10", default-features = false }
sys-locale = "=0.3.2"
directories = "=5.0.1"
ipconfig = "=0.3.4"
thiserror = "=1.0.69"
tracing = "=0.1.44"
tracing-appender = "=0.2.5"
tracing-subscriber = "=0.3.23"
eframe = { version = "0.29", default-features = false, features = ["glow"] }
arboard = { version = "3", default-features = false }
