[package]
name = "dns_bench"
version = "0.1.0"
edition = "2021"
publish = false

[dependencies]
anyhow = "=1.0.104"
clap = { version = "=3.2.25", features = ["derive"] }
cli-table = "=0.4.9"
console = "=0.15.11"
indicatif = "=0.17.11"
rand = "=0.8.8"
trust-dns-client = { version = "=0.22.0", default-features = false }

[dev-dependencies]
hdrhistogram = { version = "=7.6.0", default-features = false }
