[package]
name = "matchmaker"
version = "0.1.0"
edition = "2021"
publish = false

[dependencies]
indexmap = "=2.14.2"
serde = { version = "=1.0.229", features = ["derive"] }
nucleo = "=0.5.0"
crossterm = "=0.29.0"
ratatui = "=0.30.2"
unicode-width = "=0.2.3"
unicode-segmentation = "=1.13.3"
cli_boilerplate_automation = { version = "=0.8.1", features = ["bring"] }
anyhow = "=1.0.104"
nix = { version = "=0.31.3", features = ["poll"] }
log = "=0.4.35"
thiserror = "=2.0.21"
regex = "=1.13.1"
