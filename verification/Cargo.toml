[package]
name = "brik"
version = "0.1.0"
edition = "2021"
publish = false

[dependencies]
html5ever = "=0.40.1"
selectors = "=0.41.0"
cssparser = "=0.38.0"
precomputed-hash = "*"
