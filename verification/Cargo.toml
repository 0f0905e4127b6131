[package]
name = "dotty"
version = "0.1.0"
edition = "2021"
publish = false

[dependencies]
anstyle = "*"
anyhow = "*"
clap = { version = "*", features = ["derive"] }
cliclack = "*"
colored = "*"
crossterm = "*"
home = "*"
log = "*"
log4rs = "*"

[dev-dependencies]
toml = "*"
