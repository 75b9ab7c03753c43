[package]
name = "sheet_excavator"
version = "0.3.1"
edition = "2021"
publish = false

[dependencies]
indexmap = "=2.14.2"
calamine = "=0.30.1"
serde_json = { version = "=1.0.154", features = ["preserve_order"] }
anyhow = "=1.0.104"
tokio = { version = "=1.54.1", features = ["rt-multi-thread", "sync"] }
futures = "=0.3.34"
pyo3 = { version = "=0.27.2", features = ["abi3-py310"] }
