[package]
name = "repo_summary"
version = "0.1.0"
edition = "2021"
publish = false

[dependencies]
chrono = "0.4"
minijinja = { version = "2", features = ["loader"] }
git2 = { version = "*", default-features = false }
clap = { version = "4", features = ["derive"] }
once_cell = "1"
