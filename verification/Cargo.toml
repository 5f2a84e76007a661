[package]
name = "tpt_protocols"
version = "0.1.0"
edition = "2021"
publish = false

[dependencies]
hmac = "0.12"
sha1 = "0.10"
sha2 = "0.10"
aes = "0.8"
aes-gcm = "0.10"
orion = "0.17"
ed25519-compact = "2"
num-bigint = "0.4"
num-integer = "0.1"
subtle = "2"
getrandom = "0.2"
