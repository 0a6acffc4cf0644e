[package]
name = "zygos_db"
version = "0.1.0"
edition = "2021"
publish = false

[dependencies]
flate2 = "*"
serde = { version = "*", features = ["derive"] }
toml = "*"
clap = { version = "*", features = ["derive"] }
rayon = "*"
ascii_table = "*"
crossterm = "*"

[dev-dependencies]
vint64 = "*"
