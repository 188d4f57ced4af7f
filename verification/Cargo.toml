[package]
name = "hvm-lang"
version = "0.1.0"
edition = "2021"
publish = false

[dependencies]
anyhow = "=1.0.104"
chumsky = "=0.13.0"
hvm-core = "=0.2.26"
itertools = "=0.12.1"
miette = "=5.10.0"
parking_lot = "=0.12.5"
thiserror = "=1.0.69"
