[package]
name = "facet_deserialize"
version = "0.1.0"
edition = "2021"
publish = false

[dependencies]
facet-core = "=0.31.8"
facet-reflect = "=0.31.8"
