[package]
name = "cusage"
version = "0.1.0"
edition = "2021"
publish = false

[dependencies]
jiff = "0.2"
serde = { version = "1", features = ["derive"] }
serde_json = "1"
ratatui = "0.29"
crossterm = "0.28"
dirs = "6"
ureq = { version = "2", features = ["json"] }
