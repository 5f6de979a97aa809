[package]
name = "backend_lab"
version = "0.1.0"
edition = "2021"
publish = false

[dependencies]
indexmap = "2"
smallvec = "1"
iced-x86 = { version = "1", features = ["code_asm"] }
anyhow = "1"
clap = { version = "4", features = ["derive"] }
serde = { version = "1", features = ["derive"] }
serde_json = "1"
tempfile = "3"
libc = "0.2"
thiserror = "1"
