[package]
name = "light_vector_db"
version = "0.1.0"
edition = "2021"
publish = false

[dependencies]
memmap2 = "0.9"
serde = { version = "1", features = ["derive"] }
serde_json = "1"
