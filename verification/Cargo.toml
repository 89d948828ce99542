[package]
name = "pico8_to_lua"
version = "0.1.0"
edition = "2021"
publish = false

[dependencies]
regex = "=1.13.1"

[dev-dependencies]
find-matching-bracket = "=0.2.0"
