[package]
name = "npaf"
version = "0.1.0"
edition = "2021"
publish = false

[dependencies]
regex = "1"
unicode-bom = "*"
gtk = "0.18"
gio = "0.18"
glib = "0.18"
