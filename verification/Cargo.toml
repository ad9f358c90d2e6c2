[package]
name = "calculator"
version = "0.1.0"
edition = "2021"
publish = false

[dependencies]
gdk = "0.18"
gio = "0.18"
gtk = "0.18"
lazy_static = "1"
