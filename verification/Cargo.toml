[package]
name = "ndjson_router"
version = "0.1.0"
edition = "2021"
publish = false

[dependencies]
clap = "4"
flate2 = "1"
json = "0.12"
log = "0.4"
rayon = "1"
tar = "0.4"
walkdir = "2"
