[package]
name = "shape_mesh"
version = "0.1.0"
edition = "2021"
publish = false

[dependencies]
cgmath = "=0.18.0"
glium = "=0.36.0"
log = "=0.4.35"
num_cpus = "=1.17.0"
threadpool = "=1.8.1"
