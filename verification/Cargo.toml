[package]
name = "helvum"
version = "0.5.1"
edition = "2021"
publish = false

[dependencies]
petgraph = "*"
serde = { version = "1", features = ["derive"] }
toml = "*"
log = "0.4"
async-channel = "2"
libc = "0.2"
libspa = "*"
pipewire = "*"
libadwaita = { version = "*", features = ["v1_5"] }
