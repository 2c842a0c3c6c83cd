[package]
name = "agg_index_tree"
version = "0.1.0"
edition = "2021"
publish = false

[dependencies]
roaring = "*"
rayon = "*"
chrono = "*"
clap = { version = "*", features = ["derive"] }
memuse = "*"
rand = "*"
serde = { version = "*", features = ["derive"] }
uuid = { version = "*", features = ["v4"] }
