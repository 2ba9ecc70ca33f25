[package]
name = "visible_entities"
version = "0.1.0"
edition = "2021"
publish = false

[dependencies]
legion = { version = "0.2.4", default-features = false }
