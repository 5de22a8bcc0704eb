[package]
name = "feather_protocol"
version = "0.1.0"
edition = "2021"
publish = false

[dependencies]
serde = { version = "1", features = ["derive"] }
serde_json = "1"
ron = "0.8"
indexmap = { version = "2", features = ["serde"] }
miniz_oxide = "=0.9.1"
hematite-nbt = "0.5"
aes = "=0.7.5"
cfb8 = "=0.7.1"
parse_wiki_text = "0.1"
