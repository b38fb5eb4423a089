[package]
name = "range_map_regex"
version = "0.1.0"
edition = "2021"
publish = false

[dependencies]
indexmap = "*"
range-set-blaze = "*"
unicode-ident = "*"
