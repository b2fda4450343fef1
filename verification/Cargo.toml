[package]
name = "envsubst"
version = "0.1.0"
edition = "2021"
publish = false

[dependencies]
shellexpand = "3"
getopts = "0.2"
glob = "0.3"

[dev-dependencies]
temp-env = "0.3"
tempfile = "3"
