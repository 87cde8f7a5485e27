[package]
name = "bonsai"
version = "0.1.0"
edition = "2021"
publish = false

[dependencies]
anyhow = "1"
async-graphql = "7"
blake3 = "1"
clap = { version = "4", features = ["derive"] }
futures = "0.3"
ignore = "0.4"
protobuf = "3"
rayon = "1"
reqwest = { version = "0.12", default-features = false, features = ["blocking", "json", "rustls-tls"] }
rusqlite = { version = "*", features = ["bundled"] }
scip = "*"
serde = { version = "1", features = ["derive"] }
serde_json = "1"
toml = "*"
