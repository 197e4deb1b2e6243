[package]
name = "cache_archive"
version = "0.1.0"
edition = "2021"
publish = false

[dependencies]
sha1 = "*"
hex = "*"
glob-match = "*"
petgraph = "*"
tar = "*"
zstd = "*"
ignore = "*"
path-slash = "*"
