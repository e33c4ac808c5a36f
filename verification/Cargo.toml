[package]
name = "compact_strings"
version = "0.1.0"
edition = "2021"
publish = false

[dependencies]
bytemuck = "1"
