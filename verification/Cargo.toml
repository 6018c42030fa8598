[package]
name = "fdedup"
version = "0.1.0"
edition = "2021"
publish = false

[dependencies]
anyhow = "=1.0.104"
fxhash = "=0.2.1"
md5 = "=0.7.0"
parking_lot = "=0.12.5"
serde = "=1.0.229"
serde_derive = "=1.0.229"
serde_json = "=1.0.151"
structopt = "=0.3.26"
tokio = { version = "=1.53.2", features = ["fs", "io-util", "macros", "process", "rt-multi-thread", "sync", "time"] }
