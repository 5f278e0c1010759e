[package]
name = "sni-gate"
version = "0.1.0"
edition = "2021"
publish = false

[dependencies]
aes = "=0.8.4"
aes-gcm = "=0.10.3"
anyhow = "=1.0.104"
base64 = "=0.22.1"
bytes = "=1.12.1"
clap = { version = "=4.6.7", features = ["derive"] }
futures-util = "=0.3.34"
h3 = "=0.0.8"
h3-quinn = "=0.0.10"
hickory-resolver = { version = "=0.26.3", features = ["https-ring", "tls-ring"] }
hkdf = "=0.12.4"
http = "=1.5.0"
humantime-serde = "1"
ipnet = "=2.12.2"
notify = "=8.2.1"
quinn = "=0.11.12"
rand = "=0.9.5"
regex = "=1.13.1"
rustls = "=0.23.46"
serde = { version = "=1.0.229", features = ["derive"] }
sha2 = "=0.10.9"
tokio = { version = "=1.54.1", features = ["full"] }
tokio-rustls = "=0.26.6"
toml = "=1.1.8"
tracing = "=0.1.44"
tracing-subscriber = { version = "=0.3.23", features = ["env-filter"] }
ureq = "=3.5.1"
webpki-roots = "=1.0.10"
