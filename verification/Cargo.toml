[package]
name = "m2c"
version = "0.1.0"
edition = "2021"
publish = false

[dependencies]
anyhow = "1"
clap = { version = "4", features = ["derive"] }
comma = "*"
git-version = "*"
regex = "1"
serde = { version = "1", features = ["derive"] }
serde_json = "1"
tracing = "*"
tracing-subscriber = "*"
tree-sitter = "*"
tree-sitter-make = "*"
which = "*"
