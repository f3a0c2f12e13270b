[package]
name = "silverscript_state"
version = "0.1.0"
edition = "2021"
publish = false

[dependencies]
kaspa-txscript = "=2.1.0"

[dev-dependencies]
kaspa-consensus-core = "=2.1.0"
kaspa-txscript-errors = "=2.1.0"
blake3 = "=1.8.7"
