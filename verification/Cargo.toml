[package]
name = "ring_channels"
version = "0.1.0"
edition = "2021"
publish = false
