[package]
name = "bib2"
version = "0.1.0"
edition = "2021"
publish = false

[dependencies]
biblatex = "*"
clap = { version = "4", features = ["derive"] }
pyo3 = "*"
serde = { version = "1", features = ["derive"] }
serde_json = "1"
