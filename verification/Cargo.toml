[package]
name = "diagram"
version = "0.1.0"
edition = "2021"
publish = false

[dependencies]
serde = { version = "1", features = ["derive"] }
serde_json = "1"
anyhow = "1"
resvg = "*"
usvg = "*"
tiny-skia = "*"
svg2pdf = "*"
tree-sitter = "*"
tree-sitter-rust = "*"
tree-sitter-typescript = "*"
