[package]
name = "payload_pulverizer"
version = "0.1.0"
edition = "2021"
publish = false

[dependencies]
serde_json = "1"
quick-xml = "0.30"
pulldown-cmark = "*"
serde = { version = "1", features = ["derive"] }
rusqlite = { version = "*", features = ["bundled"] }
actix-web = { version = "4", default-features = false, features = ["macros"] }
clap = { version = "4", features = ["derive"] }
rand = "0.9"
