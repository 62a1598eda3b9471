[package]
name = "debs2021"
version = "0.1.0"
edition = "2021"
publish = false

[dependencies]
arrayvec = "*"
prost = "*"
prost-types = "*"
bytes = "*"
thiserror = "*"
