[package]
name = "rtic_kernel"
version = "0.1.0"
edition = "2021"
publish = false
