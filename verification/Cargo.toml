[package]
name = "rank_graph"
version = "0.1.0"
edition = "2021"
publish = false

[dependencies]
roaring = "*"
fst = "*"
anyhow = "*"
heed = "*"
grenad = "*"
tempfile = "*"
