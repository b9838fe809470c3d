[package]
name = "blescan"
version = "0.1.0"
edition = "2021"
publish = false

[dependencies]
xxhash-rust = { version = "=0.8.19", features = ["xxh3"] }
base62 = "=2.2.6"
chrono = "=0.4.45"
tokio = { version = "=1.53.2", features = ["rt-multi-thread", "macros", "time"] }
btleplug = "=0.13.4"
clap = { version = "=4.6.7", features = ["derive"] }
humantime = "=2.4.0"
uuid = "=1.27.0"
async-trait = "=0.1.92"
