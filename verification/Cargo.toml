[package]
name = "sol_dap"
version = "0.1.0"
edition = "2021"
publish = false

[dependencies]
alloy-primitives = "=1.7.3"
dap = "=0.4.1-alpha1"
eyre = "=0.6.14"
serde = { version = "=1.0.229", features = ["derive"] }
serde_json = "=1.0.154"
tracing = "=0.1.44"
tracing-subscriber = { version = "=0.3.23", features = ["env-filter"] }
revm-inspectors = { version = "=0.44.3", default-features = false, features = ["serde"] }
revm-bytecode = "=43.0.0"
