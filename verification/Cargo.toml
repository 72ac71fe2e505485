[package]
name = "mdbook"
version = "0.1.0"
edition = "2021"
publish = false

[dependencies]
regex = "1"
handlebars = "*"
serde = { version = "1", features = ["derive"] }
serde_json = "1"
pulldown-cmark = { version = "*", default-features = false, features = ["html"] }
