[package]
name = "helm_resource"
version = "0.1.0"
edition = "2021"
publish = false

[dependencies]
md5 = "*"
serde = "*"
serde_json = "*"
serde_derive = "*"
base64 = "*"
