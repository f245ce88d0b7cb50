[package]
name = "merklespike"
version = "0.1.0"
edition = "2021"
publish = false

[dependencies]
amcl_wrapper = "*"
clap = "2"
jemalloc-ctl = "*"
jemallocator = "*"
lazy_static = "1"
rand = "0.7"
regex = "1"
