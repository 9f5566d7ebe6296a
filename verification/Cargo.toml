[package]
name = "farmview"
version = "0.1.0"
edition = "2021"
publish = false

[dependencies]
time = "=0.1.45"
clap = "=2.34.0"
crossbeam = "=0.8.5"
error-chain = "=0.12.4"
hyper = "=0.10.16"
rayon = "=1.12.0"
reroute = "0.3"
serde = { version = "=1.0.229", features = ["derive"] }
serde_json = "1"
slack-hook = "=0.8.0"
ssh2 = "=0.9.6"
tera = "=0.11.20"
toml = "=0.4.10"
xdg = "=2.5.2"
