[package]
name = "catalog"
version = "0.1.0"
edition = "2021"
publish = false

[dependencies]
csv = "1"
s2 = "*"
sha2 = "0.10"
serde_json = "1"
geo = "*"
geojson = "*"
pmtiles = { version = "*", features = ["mmap-async-tokio"] }
tokio = { version = "1", features = ["full"] }
clap = { version = "4", features = ["derive"] }
thiserror = "*"
