[package]
name = "quartet_splitter"
version = "0.1.0"
edition = "2021"
publish = false

[dependencies]
anyhow = "1"
clap = { version = "4", features = ["derive"] }
image = { version = "0.25", default-features = false, features = ["png"] }
lopdf = "0.38"
pdfium-render = "0.8"
realfft = "3"
