[package]
name = "shell"
version = "0.1.0"
edition = "2021"
publish = false

[dependencies]
rustyline = { version = "14", features = ["derive"] }
is_executable = "1"
