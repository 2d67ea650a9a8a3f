[package]
name = "setting_saver"
version = "0.1.0"
edition = "2021"
publish = false

[dependencies]
dbus = "*"
dbus-crossroads = "*"
signal-hook = "*"
