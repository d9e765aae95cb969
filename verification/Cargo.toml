[package]
name = "website"
version = "0.1.0"
edition = "2021"
publish = false

[dependencies]
pulldown-cmark = "*"
ratex-parser = "*"
ratex-layout = "*"
ratex-svg = "*"
ratex-types = "*"
tokio = { version = "1", features = ["full"] }
