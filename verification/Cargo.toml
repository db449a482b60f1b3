[package]
name = "vaspchg_rs"
version = "0.1.0"
edition = "2021"
publish = false

[dependencies]
ndarray = "*"
regex = "1"
vasp-poscar = "*"
