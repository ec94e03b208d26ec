[package]
name = "nft_rarity"
version = "0.1.0"
edition = "2021"
publish = false

[dependencies]
actix-web = "4"
actix-cors = "*"
http = "0.2"
serde = { version = "1", features = ["derive"] }
serde_json = "1"
statrs = "*"
