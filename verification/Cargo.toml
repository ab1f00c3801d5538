[package]
name = "n3_core"
version = "0.1.0"
edition = "2021"
publish = false

[dependencies]
heck = "=0.5.0"
lalrpop-util = "=0.19.2"
n3-parser = "=0.3.5"
symengine = "=0.2.2"
serde = { version = "=1.0.229", features = ["derive"] }
walkdir = "=2.5.0"
