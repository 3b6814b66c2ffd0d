[package]
name = "matter_setup_code"
version = "0.1.0"
edition = "2021"
publish = false

[dependencies]
thiserror = "=2.0.21"

[dev-dependencies]
deku = "=0.20.3"
