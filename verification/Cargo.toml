[package]
name = "rebi"
version = "0.1.0"
edition = "2021"
publish = false

[dependencies]
directories = "=6.0.0"
iced = { version = "=0.14.0", default-features = false, features = ["tiny-skia", "x11", "thread-pool"] }
