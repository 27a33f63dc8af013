[package]
name = "sorer"
version = "0.1.0"
edition = "2021"
publish = false

[dependencies]
nom = "=7.1.3"
easy_reader = "=0.5.2"
serde = { version = "=1.0.229", features = ["derive"] }
deepsize = "=0.1.2"
num_cpus = "=1.17.0"
