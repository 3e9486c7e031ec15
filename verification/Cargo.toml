[package]
name = "aspop_solver"
version = "1.0.0"
edition = "2021"
publish = false

[dependencies]
bio = "=4.2.2"
clap = "=2.34.0"
cue = "=0.1.0"
num_cpus = "=1.17.0"
