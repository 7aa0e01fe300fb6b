[package]
name = "kicad2print"
version = "0.1.0"
edition = "2021"
publish = false

[dependencies]
anyhow = "1"
base64 = "0.22"
clap = { version = "4", features = ["derive"] }
earcutr = "*"
geo = "*"
rmcp = { version = "*", features = ["server", "transport-io", "macros", "schemars"] }
serde = { version = "1", features = ["derive"] }
serde_json = "1"
tokio = { version = "1", features = ["full"] }
toml = "*"
zip = { version = "*", default-features = false, features = ["deflate"] }
