[package]
name = "source_map_mappings"
version = "0.1.0"
edition = "2021"
publish = false

[dependencies]
vlq = "*"
rand = "*"
