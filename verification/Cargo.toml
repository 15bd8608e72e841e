[package]
name = "relocdiff"
version = "0.2.0"
edition = "2021"
publish = false

[dependencies]
iced-x86 = "1"
serde = { version = "1", features = ["derive"] }
postcard = { version = "1", features = ["alloc"] }
serde_json = "1"
clap = { version = "4", features = ["derive"] }
thiserror = "2"
