[package]
name = "blocklog"
version = "0.1.0"
edition = "2021"
publish = false

[dependencies]
sha2 = "0.10"
leb128 = "0.2"
candid = "*"
ic-cdk = "*"
ic-cdk-macros = "*"
serde = "*"
num-traits = "0.2"
