[package]
name = "spirv-linker"
version = "0.1.0"
edition = "2021"
publish = false

[dependencies]
rspirv = "*"
topological-sort = "*"
thiserror = "*"
