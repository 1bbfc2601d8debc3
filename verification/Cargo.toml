[package]
name = "minesweeper_core"
version = "0.1.0"
edition = "2021"
rust-version = "1.95"
publish = false

[dependencies]
rand = "=0.8.8"
serde = { version = "1", features = ["derive"] }
serde_json = "1"
crossterm = "0.28"
actix-web = "4"
tera = "1"
anyhow = "1"
tract-onnx = "0.21"
cstr = "0.2"
qmetaobject = "0.2"

[dev-dependencies]
kstring = "=2.0.0"
