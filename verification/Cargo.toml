[package]
name = "tensorlang"
version = "0.1.0"
edition = "2021"
publish = false

[dependencies]
syn = { version = "2", features = ["full"] }
prettyplease = "0.2"
anyhow = "1"
miette = "*"
thiserror = "*"
chumsky = "0.9"
