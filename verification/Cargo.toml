[package]
name = "nest"
version = "0.1.0"
edition = "2021"
publish = false

[dependencies]
chrono = "0.4"
hyprland = "*"
tokio = { version = "1", features = ["rt", "macros", "time", "sync"] }
log = "0.4"
fern = "*"
dirs = "*"
serde = { version = "1", features = ["derive"] }
toml = "*"
