[package]
name = "html5ever_flat_dom"
version = "0.1.0"
edition = "2021"
publish = false

[dependencies]
html5ever = "0.26"
markup5ever = "0.11"
tendril = "0.4"
rustler = "0.35"
thiserror = "1"
