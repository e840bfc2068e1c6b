[package]
name = "rusty_zechub"
version = "0.1.0"
edition = "2021"
publish = false

[dependencies]
bip0039 = "*"
curl = "*"
clearscreen = "*"
dialoguer = "*"

[dev-dependencies]
serde_json = "*"
