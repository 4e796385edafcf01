[package]
name = "bubbles"
version = "0.1.0"
edition = "2021"
publish = false

[dependencies]
gfa = "=0.2.3"
handlegraph = "=0.2.0"
