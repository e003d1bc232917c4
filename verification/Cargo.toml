[package]
name = "merge_conflict_assistant"
version = "0.1.0"
edition = "2021"
publish = false

[dependencies]
anyhow = "*"
crossbeam-channel = "*"
log = "*"
lsp-server = "*"
lsp-types = "*"
serde_json = "*"
tracing = "*"
tracing-subscriber = "*"
