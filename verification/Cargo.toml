[package]
name = "netero"
version = "0.1.0"
edition = "2021"
publish = false

[dependencies]
serde_json = "=1.0.151"
crossbeam = "=0.8.5"
chrono = "=0.4.45"
clap = { version = "=4.6.7", features = ["derive"] }
clap-verbosity-flag = "=3.0.4"
log = "*"
simplelog = "=0.12.2"
reqwest = { version = "=0.11.27", default-features = false, features = ["blocking"] }
tui = "=0.19.0"
crossterm = "*"
mckernant1-tools = { version = "=0.0.8", features = ["channels"] }
saitama = "=0.0.13"
