[package]
name = "tg"
version = "0.1.0"
edition = "2021"
publish = false

[dependencies]
chrono = "=0.4.45"
clap = { version = "4", features = ["derive"] }
clap-stdin = "0.8"
clap_complete = "4"
derive_more = { version = "2", features = ["display", "from_str"] }
eyre = "0.6"
futures-util = "0.3"
grammers-client = "=0.8.1"
grammers-mtsender = "=0.8.1"
grammers-session = "=0.8.0"
grammers-tl-types = "=0.8.0"
jiff = "=0.2.39"
miette = "7"
rand = "0.8"
regex = "=1.13.1"
reqwest = { version = "0.12", default-features = false, features = ["json"] }
serde = { version = "1", features = ["derive"] }
serde_json = "=1.0.154"
tokio = { version = "1", features = ["full"] }
toml = "1"
tracing = "0.1"
xattr = "1"
