[package]
name = "atlasbuilder"
version = "0.1.0"
edition = "2021"
publish = false

[dependencies]
rand = "0.8"
clap = { version = "4", features = ["cargo"] }
image = "*"
png = "*"
oxipng = "*"
pathdiff = "*"
serde = "1"
serde_derive = "1"
serde_json = "1"
tera = "1"
failure = "0.1"
log = "0.4"
