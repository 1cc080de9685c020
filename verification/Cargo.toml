[package]
name = "dictionary_lsp"
version = "0.1.0"
edition = "2021"
publish = false

[dependencies]
trie-rs = "0.2"
lru = "0.12"
dashmap = "6"
fxhash = "0.2"
rusqlite = { version = "0.31", features = ["bundled"] }
toml = "0.8"
dirs = "5"
serde = { version = "1", features = ["derive"] }
serde_json = "1"
