[package]
name = "sludge"
version = "0.1.0"
edition = "2021"
publish = false

[dependencies]
hibitset = { version = "=0.6.4", default-features = false }
petgraph = { version = "=0.6.5", default-features = false, features = ["stable_graph"] }
rlua = "=0.19.8"
hecs = "=0.11.2"
log = "=0.4.35"
serde = { version = "=1.0.229", features = ["derive"] }
miniquad = "=0.3.16"
anyhow = "=1.0.104"
regex = "=1.13.1"
thunderdome = "*"
