[package]
name = "nephrite4"
version = "0.1.0"
edition = "2021"
publish = false

[dependencies]
bytes = "1"
chrono = "0.4"
clap = "2"
dotenv = "0.15"
encoding = "0.2"
env_logger = "*"
filetime = "0.2"
glob = "0.3"
hex = "0.4"
j4rs = "*"
jieba-rs = "*"
lazy_static = "1"
log = "0.4"
notmecab = "*"
postgres = { version = "0.19", features = ["with-serde_json-1"] }
postgres-types = "0.2"
rust-crypto = "0.2"
rust-stemmers = "1"
serde_cbor = "0.11"
serde_json = "1"
serde_yaml = "0.8"
substring = "1"
tree_magic = "0.2"
whatlang = "*"
zstd = "*"
