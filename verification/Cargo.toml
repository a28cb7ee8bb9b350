[package]
name = "waybright"
version = "0.1.0"
edition = "2021"
publish = false

[dependencies]
clap = { version = "=4.6.7", features = ["derive"] }
serde = { version = "=1.0.229", features = ["derive"] }
serde_json = "=1.0.154"
ddc = "=0.2.2"
ddc-i2c = { version = "=0.2.2", features = ["with-linux"] }
dbus = "=0.9.12"
zbus = "=5.19.0"
wayland-client = "=0.31.15"
wayland-protocols-wlr = { version = "=0.3.12", features = ["client"] }
tempfile = "=3.27.0"
