[package]
name = "repgraph"
version = "0.1.0"
edition = "2021"
publish = false

[dependencies]
meritrank = "*"
simple-pagerank = "*"
nng = "*"
rmp-serde = "*"
ctrlc = "*"
