[package]
name = "pm"
version = "0.4.0"
edition = "2021"
publish = false

[dependencies]
bytemuck = { version = "1", features = ["derive"] }
bytes = "1"
libloading = "0.8"
quinn-proto = "0.11"
rcgen = "0.14"
rustls = { version = "0.23", default-features = false, features = ["ring", "std"] }
