[package]
name = "datagram_chunker"
version = "0.1.0"
edition = "2021"
publish = false

[dependencies]
err-rs = "*"
flood-rs = "*"
