[package]
name = "toil-methylseq-utils"
version = "0.1.0"
edition = "2021"
publish = false

[dependencies]
bio = "=4.2.2"
clap = "=2.34.0"
env_logger = "=0.11.11"
fasthash = "=0.4.0"
flate2 = "=1.1.10"
log = "=0.4.34"
rust-htslib = { version = "=0.38.2", default-features = false }
serde_json = "=1.0.154"
