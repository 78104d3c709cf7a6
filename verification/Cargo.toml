[package]
name = "kmem"
version = "0.1.0"
edition = "2021"
publish = false

[dependencies]
spin = "*"
redox_syscall = "*"
