[package]
name = "memchr_n"
version = "0.1.5"
edition = "2021"
publish = false

[dependencies]
fearless_simd = { version = "=1.2.0", features = ["force_support_fallback"] }
libfuzzer-sys = "=0.4.13"
