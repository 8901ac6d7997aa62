[package]
name = "os_metric_beats"
version = "0.1.0"
edition = "2021"
publish = false

[dependencies]
anyhow = "1"
async-trait = "0.1"
chrono = "0.4"
dotenv = "0.15"
elasticsearch = "=8.19.0-alpha.1"
local-ip-address = "*"
log = "0.4"
netstat2 = "*"
rand = "0.8"
serde = { version = "1", features = ["derive"] }
serde_json = "1"
sysinfo = "=0.29.11"
tokio = { version = "1", features = ["full"] }
toml = "*"
url = "2"
