[package]
name = "kvs"
version = "0.1.0"
edition = "2021"
publish = false

[dependencies]
base64 = "0.13"
bson = "0.14"
clap = "2.33"
crossbeam = "0.7"
num_cpus = "1"
rayon = "1"
sled = "0.34"
slog = "2"
sloggers = "0.3"

[dev-dependencies]
tempfile = "3"
