[package]
name = "edt"
version = "0.2.2"
edition = "2021"
publish = false
