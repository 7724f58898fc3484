[package]
name = "lumixbackup"
version = "0.1.0"
edition = "2021"
publish = false

[dependencies]
anyhow = "1"
blake3 = "1"
chrono = "0.4"
clap = { version = "4", features = ["derive"] }
colored = "2"
dirs = "5"
indicatif = "0.17"
num_cpus = "1"
rayon = "1"
rdev = "0.5"
reqwest = { version = "0.12", default-features = false, features = ["json", "rustls-tls"] }
rustyline = "14"
semver = "1"
serde = { version = "1", features = ["derive"] }
spinners = "4"
tokio = { version = "1", features = ["macros", "rt-multi-thread"] }
walkdir = "2"
