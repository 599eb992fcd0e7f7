[package]
name = "overline"
version = "0.1.0"
edition = "2021"
publish = false

[dependencies]
anyhow = "1"
clap = "4"
geo = "0.27"
geojson = "0.24"
ordered-float = "4"
rayon = "1"
serde = { version = "1", features = ["derive"] }
serde_json = "1"
