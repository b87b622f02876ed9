[package]
name = "tnn"
version = "0.1.0"
edition = "2021"
publish = false

[dependencies]
semver = "1"
syn = { version = "2", features = ["full", "extra-traits"] }
clap = "4"
proc-macro2 = "1"
quote = "1"
glob = "0.3"
libloading = "0.8"
anyhow = "1"
thiserror = "1"
tokio = { version = "1", features = ["sync"] }
