[package]
name = "straps"
version = "0.1.0"
edition = "2021"
publish = false

[dependencies]
bit-set = "0.5"
rand = "0.7"
itertools = "0.10"
ndarray = { version = "0.15", features = ["rayon"] }
statrs = "0.16"
ordered-float = "2"
indicatif = "0.15"
rayon = "1"
fxhash = "0.2"
log = "0.4"
num-traits = "0.2"
crossbeam-utils = "0.8"
hytra = "0.1"
firestorm = "*"
pyo3 = "0.21"
numpy = "0.21"
