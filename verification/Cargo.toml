[package]
name = "sysmon"
version = "0.1.1"
edition = "2021"
publish = false

[dependencies]
glib = "*"
gtk4 = { version = "*", features = ["v4_12"] }
libadwaita = { version = "*", features = ["v1_5"] }
libc = "0.2"
