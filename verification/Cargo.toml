[package]
name = "pydeob"
version = "0.1.0"
edition = "2021"
publish = false

[dependencies]
anyhow = "1"
cpython = { version = "*", default-features = false, features = ["python27-sys"] }
log = "0.4"
num-bigint = "*"
num-traits = "0.2"
py-marshal = "*"
pydis = "*"
thiserror = "1"
