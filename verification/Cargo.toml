[package]
name = "pre_commit_tool_hooks"
version = "0.1.0"
edition = "2021"
publish = false

[dependencies]
chrono = "*"
clap = { version = "*", features = ["derive"] }
pulldown-cmark = "*"
regex = "*"
url = "*"
