[package]
name = "stack_vm"
version = "0.1.0"
edition = "2021"
publish = false

[dependencies]
stwo = "=2.3.0"
stwo-constraint-framework = "=2.3.0"
itertools = "=0.12.1"
num-traits = "=0.2.19"
