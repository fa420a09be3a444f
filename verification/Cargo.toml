[package]
name = "rusty_rag_core"
version = "0.1.0"
edition = "2021"
publish = false

[dependencies]
anyhow = "=1.0.104"
clap = { version = "=4.6.7", features = ["derive"] }
dotenvy = "=0.15.7"
memmap2 = "=0.9.11"
pdf-extract = "=0.12.1"
qdrant-client = "=1.19.0"
rayon = "=1.12.0"
reqwest = { version = "=0.13.5", default-features = false, features = ["json", "rustls"] }
rig-core = { version = "=0.44.0", features = ["reqwest"] }
serde_json = "=1.0.151"
tokio = { version = "=1.53.2", features = ["full"] }
uuid = { version = "=1.27.0", features = ["v4"] }
