[package]
name = "crds_gossip_push"
version = "0.1.0"
edition = "2021"
publish = false

[dependencies]
bincode = "=1.3.3"
indexmap = "=1.9.3"
lru = "=0.6.6"
rand = "=0.7.3"
rand_chacha = "=0.2.2"
serde = "=1.0.229"
