[package]
name = "fem_assembly"
version = "0.1.0"
edition = "2021"
publish = false

[dependencies]
itertools = "*"
scirs2-sparse = "*"
nalgebra = "*"
ndarray = "*"
memmap2 = "*"
bytemuck = "*"
twox-hash = "*"
once_cell = "*"
