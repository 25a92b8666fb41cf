[package]
name = "wnfslib"
version = "0.1.0"
edition = "2021"
publish = false

[dependencies]
skip_ratchet = "=0.1.6"
sha3 = "0.10"
chrono = "0.4"
hashbrown = "=0.17.1"
libipld = "=0.12.0"
rand = "0.8"
anyhow = "1"
log = "0.4"
jni = "0.19"
kv = "0.24"
