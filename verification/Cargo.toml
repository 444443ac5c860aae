[package]
name = "wiki_mirror"
version = "0.1.0"
edition = "2021"
publish = false

[dependencies]
nipper = "*"
reqwest = { version = "*", default-features = false }
actix-web = { version = "*", default-features = false, features = ["macros"] }
crossbeam-channel = "*"
