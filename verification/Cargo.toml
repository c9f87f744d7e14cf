[package]
name = "cozo_core"
version = "0.1.0"
edition = "2021"
publish = false

[dependencies]
itertools = "0.10"
either = "1"
miette = "5"
thiserror = "1"
anyhow = "1"
log = "0.4"
smartstring = "1"
sqlite = { version = "0.30", default-features = false }
