[package]
name = "zsh_history_cleaner"
version = "0.1.0"
edition = "2021"
publish = false

[dependencies]
chrono = "*"
clap = { version = "*", features = ["derive"] }
comfy-table = "*"
console = "*"
expand-tilde = "*"
humanize-duration = "*"
thiserror = "*"
