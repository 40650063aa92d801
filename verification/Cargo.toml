[package]
name = "fin_decimal"
version = "0.1.0"
edition = "2021"
publish = false

[dependencies]
serde = "1"
ufmt = "0.2"
