[package]
name = "ebook_translator"
version = "0.1.0"
edition = "2021"
publish = false

[dependencies]
base64 = "*"
lol_html = "*"
pdf-extract = "*"
pdf-inspector = "*"
rand = "*"
reqwest = { version = "*", default-features = false, features = ["json", "rustls-tls"] }
roxmltree = "*"
serde = { version = "*", features = ["derive"] }
serde_json = "*"
sha2 = "*"
tokio = { version = "*", features = ["rt", "sync", "time", "macros"] }
zip = { version = "*", default-features = false, features = ["deflate"] }
