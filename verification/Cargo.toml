[package]
name = "openepl"
version = "0.1.0"
edition = "2021"
publish = false

[dependencies]
gimli = "=0.34.0"
object = "=0.40.0"
memmap2 = "=0.9.12"

[dev-dependencies]
object = { version = "=0.40.0", features = ["write"] }
