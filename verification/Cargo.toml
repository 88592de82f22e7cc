[package]
name = "gossiphs"
version = "0.1.0"
edition = "2021"
publish = false

[dependencies]
petgraph = "=0.6.5"
regex = "=1.13.1"
tree-sitter = "=0.22.6"
tree-sitter-rust = "=0.21.2"
tree-sitter-typescript = "=0.21.2"
tree-sitter-go = "=0.21.2"
tree-sitter-python = "=0.21.0"
tree-sitter-javascript = "=0.21.4"
tree-sitter-java = "=0.21.0"
tree-sitter-kotlin = "=0.3.8"
tree-sitter-swift = "=0.5.0"
tree-sitter-c-sharp = "=0.21.3"
tree-sitter-c = "=0.21.4"
tree-sitter-cpp = "=0.22.3"
anyhow = "=1.0.104"
axum = "=0.7.9"
bincode = "=1.3.3"
clap = { version = "=4.6.7", features = ["derive"] }
csv = "=1.4.0"
cupido = "=0.3.5"
git2 = "=0.18.3"
indicatif = "=0.17.11"
inquire = "=0.9.4"
rayon = "=1.12.0"
serde = { version = "=1.0.229", features = ["derive"] }
serde_json = "=1.0.154"
termtree = "=1.0.0"
tokio = { version = "=1.54.1", features = ["full"] }
tracing = "=0.1.44"
tracing-subscriber = "=0.3.23"
