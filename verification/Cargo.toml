[package]
name = "fastgridcache"
version = "0.1.0"
edition = "2021"
publish = false

[dependencies]
clap = { version = "3", features = ["derive"] }
exitcode = "1"
itertools = "0.10"
rayon = "1"
