[package]
name = "untangle"
version = "0.1.0"
edition = "2021"
publish = false

[dependencies]
petgraph = "=0.6.5"
rand = "=0.8.8"
geo = "=0.27.0"
itertools = "=0.12.1"
bladeink = "0.9"
tap = "1"
tempfile = "3"
thiserror = "1"
