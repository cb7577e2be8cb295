[package]
name = "dice_engine"
version = "0.1.0"
edition = "2021"
publish = false

[dependencies]
rand = "=0.7.3"
meval = "=0.2.0"
num-traits = "=0.2.19"
anyhow = "=1.0.104"
serenity = "=0.9.4"
tokio = { version = "=0.2.25", features = ["full"] }
serde = { version = "=1.0.229", features = ["derive"] }
serde_json = "=1.0.154"
ctrlc = "=3.5.2"
log = "=0.4.34"
tracing-subscriber = "=0.2.25"

[dev-dependencies]
regex = "=1.13.1"
