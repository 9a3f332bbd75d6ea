[package]
name = "kreuzberg"
version = "0.1.0"
edition = "2021"
publish = false

[dependencies]
ahash = "=0.8.12"
anyhow = "=1.0.104"
async-trait = "=0.1.92"
bytes = "=1.12.1"
clap = { version = "=4.6.7", features = ["derive"] }
hex = "=0.4.3"
hf-hub = { version = "=0.5.0", default-features = false, features = ["ureq"] }
html-to-markdown-rs = { version = "=3.19.1", features = ["inline-images"] }
image = { version = "=0.25.10", default-features = false }
ndarray = "=0.16.1"
ort = { version = "=2.0.0-rc.15", default-features = false }
pdf_oxide = "=0.3.78"
serde_json = "=1.0.154"
sha2 = "=0.10.9"
tokio = { version = "=1.54.1", default-features = false, features = ["fs", "rt"] }
tracing = "=0.1.44"
