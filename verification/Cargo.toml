[package]
name = "zkvm_fib_bench"
version = "0.1.0"
edition = "2021"
publish = false
