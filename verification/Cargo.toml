[package]
name = "workspaces"
version = "0.1.0"
edition = "2021"
publish = false

[dependencies]
clap = { version = "*", features = ["derive"] }
colored = "*"
dialoguer = { version = "*", features = ["fuzzy-select"] }
directories = "*"
