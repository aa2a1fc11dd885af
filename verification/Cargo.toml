[package]
name = "dns_codec"
version = "0.1.0"
edition = "2021"
publish = false

[dependencies]
anyhow = "*"
clap = { version = "*", features = ["derive"] }
mio = { version = "*", features = ["net", "os-poll"] }
thiserror = "*"
tokio = { version = "*", features = ["macros", "rt-multi-thread"] }
