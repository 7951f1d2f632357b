[package]
name = "fixnum"
version = "0.1.0"
edition = "2021"
publish = false

[dependencies]
i256 = "*"
itoa = "1"
serde = "1"
