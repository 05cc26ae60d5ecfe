[package]
name = "iconv_stream"
version = "0.1.0"
edition = "2021"
publish = false

[dependencies]
encoding_rs = "=0.8.42"
codepage = "=0.1.3"
