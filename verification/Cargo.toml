[package]
name = "kmod_arch"
version = "0.1.0"
edition = "2021"
publish = false

[dependencies]
goblin = "0.10"
log = "0.4"
