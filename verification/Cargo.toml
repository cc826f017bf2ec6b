[package]
name = "dmi_index"
version = "0.1.0"
edition = "2021"
publish = false

[dependencies]
png = "*"
walkdir = "*"
argh = "*"
color-eyre = "*"
gix = "*"

[dev-dependencies]
serde_json = "*"
