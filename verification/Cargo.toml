[package]
name = "vsbf"
version = "0.1.0"
edition = "2021"
publish = false

[dependencies]
bytemuck = { version = "=1.25.2", features = ["derive"] }
capstone = "=0.14.0"
unicorn-engine = "=2.0.1"
