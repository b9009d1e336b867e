[package]
name = "sigtrail"
version = "0.1.0"
edition = "2021"
publish = false

[dependencies]
anyhow = "1"
clap = { version = "4", features = ["derive"] }
log = "0.4"
serde = { version = "1", features = ["derive", "rc"] }
serde_json = { version = "1", features = ["unbounded_depth"] }
vcd = "=0.7.0"
