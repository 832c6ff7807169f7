[package]
name = "relation"
version = "0.1.0"
edition = "2021"
publish = false

[dependencies]
fxhash = "0.2"
petgraph = "0.4"
structopt = "0.2"

[dev-dependencies]
rand = "0.4"
