[package]
name = "vue_parser"
version = "0.1.0"
edition = "2021"
publish = false

[dependencies]
serde_json = "=1.0.154"
wit-bindgen = "=0.63.0"
