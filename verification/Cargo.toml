[package]
name = "avl_tree"
version = "0.1.0"
edition = "2021"
publish = false

[dependencies]
clap = { version = "4", features = ["derive"] }
graphviz-rust = "*"

[dev-dependencies]
rand = "0.8"
itertools = "*"
