[package]
name = "flow_mapper"
version = "0.1.0"
edition = "2021"
publish = false

[dependencies]
wasmparser = "*"
print-flat-tree = "*"
termcolor = "*"
