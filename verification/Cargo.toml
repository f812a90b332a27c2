[package]
name = "flow_ir"
version = "0.3.0"
edition = "2021"
publish = false

[dependencies]
async-recursion = "=1.2.0"
async-trait = "=0.1.92"
futures = "=0.3.34"
mlua = { version = "=0.11.6", features = ["lua54", "vendored", "serde"] }
serde = { version = "=1.0.229", features = ["derive"] }
serde_json = { version = "=1.0.154", features = ["float_roundtrip", "unbounded_depth"] }
thiserror = "=2.0.21"
