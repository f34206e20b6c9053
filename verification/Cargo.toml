[package]
name = "oggvorbismeta"
version = "0.1.0"
edition = "2021"
publish = false

[dependencies]
lewton = { version = "0.10.2", default-features = false }
ogg = "0.8.0"
