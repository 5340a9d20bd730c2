[package]
name = "loro_internal"
version = "0.1.0"
edition = "2021"
publish = false

[dependencies]
rustc-hash = "2"
leb128 = "0.2"
postcard = { version = "1", features = ["alloc", "use-std"] }
serde = { version = "1", features = ["derive"] }
