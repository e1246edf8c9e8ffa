[package]
name = "whyos_core"
version = "0.1.0"
edition = "2021"
publish = false

[dependencies]
lazy_static = "=1.5.1"
spin = "=0.12.3"
volatile = "=0.2.7"
