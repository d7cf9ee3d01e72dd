[package]
name = "document_transform"
version = "0.1.0"
edition = "2021"
publish = false

[dependencies]
fst = "=0.4.7"
grenad = { version = "=0.4.7", default-features = false, features = ["tempfile"] }
itertools = "=0.10.5"
obkv = "=0.2.2"
roaring = "=0.9.0"
serde_json = { version = "=1.0.154", features = ["preserve_order"] }
flatten-serde-json = "=0.1.0"
uuid = { version = "=0.8.2", features = ["v4"] }
tempfile = "=3.27.0"
heed = "=0.11.0"
structopt = "=0.3.26"
eyre = "=0.6.14"
color-eyre = "=0.5.11"
byte-unit = "=4.0.19"
indicatif = "0.17"
stderrlog = "=0.5.4"
log = "=0.4.34"
