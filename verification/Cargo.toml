[package]
name = "siena"
version = "0.1.0"
edition = "2021"
publish = false

[dependencies]
comrak = { version = "*", default-features = false }
regex = "*"
serde = { version = "*", features = ["derive"] }
serde-frontmatter = "*"
serde_yaml = "*"
thiserror = "*"
