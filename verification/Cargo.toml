[package]
name = "rapid_view"
version = "0.1.0"
edition = "2021"
publish = false

[dependencies]
memmap2 = "*"
objc2 = "*"
objc2-app-kit = "*"
objc2-foundation = "*"
