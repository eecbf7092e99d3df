[package]
name = "pwd-interface"
version = "0.1.0"
edition = "2021"
publish = false

[dependencies]
actix-files = "0.6"
actix-http = "3"
actix-multipart = "0.6"
actix-web = "4"
actix-web-httpauth = "0.8"
anyhow = "1"
base64 = "0.21"
clap = { version = "4", features = ["derive", "env"] }
flate2 = "1"
futures = "0.3"
gitignore = "1"
once_cell = "1"
rand = "0.8"
reqwest = { version = "0.11", features = ["blocking", "multipart"] }
sha2 = "0.10"
tar = "0.4"
tempfile = "3"
tokio = { version = "1", features = ["macros", "rt-multi-thread"] }
