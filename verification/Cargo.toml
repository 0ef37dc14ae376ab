[package]
name = "nastran"
version = "0.1.0"
edition = "2021"
publish = false

[dependencies]
bytemuck = "1"
smallvec = "1"
dtoa = "0.4"
bstr = "1"
thiserror = "1"
memmap2 = "0.9"
fs2 = "0.4"
