[package]
name = "cafce"
version = "0.1.0"
edition = "2021"
publish = false

[dependencies]
anyhow = "1"
bpaf = { version = "0.9", features = ["derive"] }
envy = "0.4"
glob = "0.3"
serde = { version = "1", features = ["derive"] }
serde_either = "*"
sha2 = "0.10"
thiserror = "1"
toml = "0.8"

[dev-dependencies]
tempfile = "3"
