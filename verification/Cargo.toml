[package]
name = "pkg_resolve"
version = "0.1.0"
edition = "2021"
publish = false

[dependencies]
curl = "=0.4.51"
urlencoding = "=2.1.3"
