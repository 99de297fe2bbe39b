[package]
name = "dsync"
version = "0.1.0"
edition = "2021"
publish = false

[dependencies]
async-trait = "0.1"
blake3 = "1"
clap = { version = "4", features = ["derive"] }
dialoguer = "0.11"
dirs = "5"
fast_rsync = "0.2"
filetime = "0.2"
ignore = "0.4"
indicatif = "0.17"
memmap2 = "0.9"
num_cpus = "1"
postcard = { version = "1", features = ["alloc"] }
russh = { version = "*", default-features = false, features = ["ring", "rsa"] }
serde = { version = "1", features = ["derive"] }
serde_yaml = "0.9"
thiserror = "1"
tokio = { version = "1", features = ["rt-multi-thread", "macros", "io-util", "io-std", "fs", "sync", "time", "net", "process"] }
tracing = "0.1"
tracing-subscriber = { version = "0.3", features = ["env-filter"] }
zstd = "0.13"

[dev-dependencies]
rand = "0.8"
tempfile = "3"
