[package]
name = "protofetch"
version = "0.0.1"
edition = "2021"
publish = false

[dependencies]
clap = { version = "3", features = ["derive"] }
git2 = { version = "0.14", default-features = false }
home = "0.5"
log = "0.4"
serde = { version = "1", features = ["derive"] }
strum = { version = "0.24", features = ["derive"] }
thiserror = "1"
toml = "0.5"
tracing = "0.1"
tracing-subscriber = { version = "0.3", features = ["env-filter"] }
