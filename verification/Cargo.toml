[package]
name = "semantic_search"
version = "0.1.0"
edition = "2021"
publish = false

[dependencies]
unicode-segmentation = "*"
anyhow = "*"
clap = { version = "*", features = ["derive"] }
colored = "*"
dirs = "*"
env_logger = { version = "*", default-features = false }
log = "*"
rusqlite = { version = "*", features = ["bundled"] }
usearch = "*"
fastembed = { version = "*", default-features = false }
pdfium-render = "*"
image = { version = "*", default-features = false, features = ["png", "jpeg"] }
rusty-tesseract = "*"
