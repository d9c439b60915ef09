[package]
name = "mdkb"
version = "0.1.0"
edition = "2021"
publish = false

[dependencies]
regex = "=1.13.1"
pulldown-cmark = { version = "=0.12.2", default-features = false, features = ["html"] }
time = { version = "=0.3.55", features = ["formatting", "parsing"] }
serde = { version = "1", features = ["derive"] }
serde_json = "1"
