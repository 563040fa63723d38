[package]
name = "annotation_pipeline"
version = "0.1.0"
edition = "2021"
publish = false

[dependencies]
tokio = { version = "1", features = ["rt-multi-thread", "sync", "macros"] }
glob = "0.3"
image = "*"
opencv = "*"
