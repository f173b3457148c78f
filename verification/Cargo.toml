[package]
name = "git_ai_notes"
version = "0.1.0"
edition = "2021"
publish = false

[dependencies]
sha1 = "=0.10.7"
sha2 = "=0.10.9"
serde_json = "=1.0.154"
fancy-regex = "0.14"
