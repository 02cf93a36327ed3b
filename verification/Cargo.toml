[package]
name = "jsonval"
version = "0.1.0"
edition = "2021"
publish = false

[dependencies]
anyhow = "1"
pest = "2"
pest_derive = "2"
