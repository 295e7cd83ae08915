[package]
name = "git_adr"
version = "0.1.0"
edition = "2021"
publish = false

[dependencies]
tera = { version = "1", default-features = false }
chrono = "0.4"
