[package]
name = "wavecore"
version = "0.1.0"
edition = "2021"
publish = false

[dependencies]
url = "=2.5.8"
ureq = "=2.12.1"
unicode-segmentation = "=1.13.3"
serde_json = "1"
