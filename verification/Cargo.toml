[package]
name = "zen_build"
version = "0.1.0"
edition = "2021"
publish = false

[dependencies]
starlark = "*"
toml = "*"
sha2 = "*"
hex = "*"
serde = { version = "*", features = ["derive"] }
serde_json = "*"
anyhow = "*"
clap = { version = "*", features = ["derive"] }
tracing = "*"
