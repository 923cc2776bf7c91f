[package]
name = "rs_complete"
version = "0.1.0"
edition = "2021"
publish = false
