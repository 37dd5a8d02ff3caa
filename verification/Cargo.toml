[package]
name = "ddp_sync"
version = "0.1.0"
edition = "2021"
publish = false

[dependencies]
oneshot = "*"
cubecl = { version = "0.11.3", default-features = false }
