[package]
name = "roxy"
version = "0.1.0"
edition = "2021"
publish = false

[dependencies]
regex = "*"
url = "*"
anyhow = "*"
crossbeam = "*"
notify = "*"
serde = { version = "*", features = ["derive"] }
serde_yaml = "*"
simplelog = "*"
structopt = "*"
actix-web = { version = "*", default-features = false, features = ["macros"] }
awc = { version = "*", default-features = false }
