[package]
name = "openace"
version = "0.1.0"
edition = "2021"
publish = false

[dependencies]
xxhash-rust = { version = "0.8", features = ["xxh3"] }
tree-sitter = "*"
tree-sitter-python = "*"
tree-sitter-typescript = "*"
tree-sitter-rust = "*"
tree-sitter-go = "*"
tree-sitter-java = "*"
rusqlite = { version = "*", features = ["bundled"] }
tantivy = "*"
usearch = "*"
ignore = "*"
notify = "*"
notify-debouncer-mini = "*"
crossbeam-channel = "*"
rayon = "*"
thiserror = "*"
tracing = "*"
tracing-subscriber = { version = "*", features = ["env-filter"] }
tracing-log = "*"
serde = { version = "1", features = ["derive"] }
pyo3 = "*"
