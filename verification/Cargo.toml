[package]
name = "nbfm_trx"
version = "0.1.0"
edition = "2021"
publish = false

[dependencies]
circular-buffer = "=1.2.1"
num = "=0.4.3"
bladerf = "=0.1.2"
alsa = "=0.12.1"
anyhow = "=1.0.104"
clap = { version = "=4.6.7", features = ["derive"] }
crossterm = "=0.29.0"
ctrlc = "=3.5.2"
embedded-hal = "=1.0.0"
log = "=0.4.35"
pretty_env_logger = "=0.5.0"
hound = "=3.5.1"

[dev-dependencies]
itertools = "=0.13.0"
