[package]
name = "reader_core"
version = "0.1.0"
edition = "2021"
publish = false

[dependencies]
regex = "1"
unicode-segmentation = "1"
lru = "0.12"
tokio = { version = "1", features = ["full"] }
anyhow = "1"
log = "0.4"
strsim = "0.11"
thiserror = "1"
async-trait = "0.1"
uuid = { version = "1", features = ["v4"] }
serde = { version = "1", features = ["derive"] }
rayon = "1"
ab_glyph = "0.2"
