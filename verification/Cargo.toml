[package]
name = "rust_cc"
version = "0.1.0"
edition = "2021"
publish = false

[dependencies]
thiserror = "2"
slotmap = "1"
