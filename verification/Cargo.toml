[package]
name = "webstat"
version = "0.1.0"
edition = "2021"
publish = false

[dependencies]
ahash = "=0.8.12"
anyhow = "=1.0.104"
brotli = "=9.1.1"
bzip2 = "=0.6.1"
chrono = "=0.4.45"
clap = { version = "=4.6.7", features = ["derive"] }
flate2 = "=1.1.10"
glob = "=0.3.4"
maxminddb = "=0.32.0"
memchr = "=2.8.3"
roaring = "=0.12.0"
rtrb = "=0.4.1"
rusqlite = { version = "=0.41.1", features = ["bundled"] }
serde = { version = "=1.0.229", features = ["derive"] }
serde_yaml = "=0.9.34"
tera = "=1.20.1"
twox-hash = "=2.1.5"

[dev-dependencies]
tempfile = "=3.27.0"
