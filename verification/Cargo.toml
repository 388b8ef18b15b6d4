[package]
name = "rsheet"
version = "0.1.0"
edition = "2021"
publish = false

[dependencies]
rsheet_lib = "=0.1.4"
log = "=0.4.34"
rand = "=0.8.8"
rand_chacha = "=0.3.1"
clap = { version = "=4.6.7", features = ["derive"] }
unsvg = "=1.1.2"
bmp = "=0.5.0"
itertools = "=0.12.1"
csv = "=1.4.0"
serde = { version = "=1.0.229", features = ["derive"] }
ron = "=0.8.1"
