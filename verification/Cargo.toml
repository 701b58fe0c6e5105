[package]
name = "moreover"
version = "0.1.0"
edition = "2021"
publish = false

[dependencies]
regex = "=1.13.1"
crossterm = "=0.25.0"
directories = "=4.0.1"
enigo = "=0.0.14"
serialport = { version = "=4.10.1", default-features = false }
toml = "=0.5.11"
