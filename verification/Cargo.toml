[package]
name = "grimoire"
version = "0.1.0"
edition = "2021"
publish = false

[dependencies]
argon2 = "=0.5.3"
chacha20poly1305 = "=0.10.1"
rand = "=0.9.5"
crossterm = "=0.28.1"
ratatui = "0.29"
