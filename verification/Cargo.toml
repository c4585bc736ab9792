[package]
name = "headscale_traefik_dns"
version = "0.1.0"
edition = "2021"
publish = false

[dependencies]
anyhow = "*"
base64 = "*"
clap = { version = "*", features = ["derive", "env"] }
dotenv = "*"
regex = "*"
reqwest = { version = "*", default-features = false, features = ["blocking"] }
serde = { version = "*", features = ["derive"] }
serde_json = "*"
thiserror = "*"
