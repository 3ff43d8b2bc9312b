[package]
name = "rustify_ts"
version = "0.1.0"
edition = "2021"
publish = false

[dependencies]
bumpalo = "3"
fxhash = "0.2"
rustc-hash = "*"
lasso = "*"
serde = { version = "1", features = ["derive"] }
serde_json = "1"
rmp-serde = "*"
thiserror = "*"
async-trait = "*"
tokio = { version = "1", features = ["rt-multi-thread", "process", "io-util", "time", "fs", "macros"] }
