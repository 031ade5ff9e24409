[package]
name = "search_core"
version = "0.1.0"
edition = "2021"
publish = false

[dependencies]
roaring = "0.10"
time = { version = "0.3", features = ["parsing", "formatting", "macros"] }
rand = "0.8"
heed = "*"
rkv = "*"
obkv = "*"
itertools = "*"
serde = { version = "1", features = ["derive"] }
serde_json = "1"
actix-web = { version = "4", default-features = false }
deserr = "*"
tokio = { version = "1", features = ["rt"] }
