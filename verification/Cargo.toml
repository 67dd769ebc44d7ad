[package]
name = "graph_records"
version = "0.1.0"
edition = "2021"
publish = false

[dependencies]
hdk = "*"
holo_hash = "*"
serde = { version = "1", features = ["derive"] }
