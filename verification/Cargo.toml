[package]
name = "erofs_rs"
version = "0.1.0"
edition = "2021"
publish = false

[dependencies]
anyhow = "=1.0.104"
bytes = "=1.12.1"
chrono = "=0.4.45"
clap = { version = "=4.6.7", features = ["derive"] }
opendal = { version = "=0.55.0", default-features = false, features = ["services-http"] }
tokio = { version = "=1.54.1", features = ["rt", "macros"] }
twox-hash = "=2.1.5"
typed-path = "=0.13.0"
url = "=2.5.8"
