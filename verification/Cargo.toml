[package]
name = "reactex_core"
version = "0.1.0"
edition = "2021"
publish = false

[dependencies]
log = "=0.4.35"
log-mdc = "=0.1.0"
ctor = "=0.2.9"
justerror = "=1.1.0"
thiserror = "1"
tinyvec = { version = "=1.13.3", features = ["alloc"] }
to_vec = "=0.1.0"
