[package]
name = "rsdupes"
version = "0.1.0"
edition = "2021"
publish = false

[dependencies]
clap = { version = "4", features = ["derive"] }
console = "*"
fmmap = { version = "0.4", features = ["tokio"] }
mimalloc = "0.1"
serde = { version = "1", features = ["derive"] }
serde_json = "1"
sha2 = "0.10"
generic-array = "0.14"
tokio = { version = "1", features = ["fs", "io-util", "rt-multi-thread", "sync", "time"] }
