[package]
name = "keystore"
version = "0.1.0"
edition = "2021"
publish = false

[dependencies]
rsa = "0.3"
rand = "0.7"
structopt = "0.3"

[dev-dependencies]
serde_json = "1"
