[package]
name = "azuki-tac"
version = "0.1.0"
edition = "2021"
publish = false

[dependencies]
thunderdome = "=0.6.1"
tinyvec = { version = "=1.13.3", features = ["alloc"] }
smol_str = "=0.3.7"
