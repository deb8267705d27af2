[package]
name = "autodiff"
version = "0.1.0"
edition = "2021"
publish = false

[dependencies]
index_vec = "=0.1.4"
cranelift = "=0.107.2"
cranelift-jit = "=0.107.2"
cranelift-module = "=0.107.2"
cranelift-native = "=0.107.2"
