[package]
name = "platform"
version = "0.1.0"
edition = "2021"
publish = false

[dependencies]
anyhow = "=1.0.104"
colored = "=3.1.1"
craftping = { version = "=0.8.0", features = ["async-tokio"] }
dialoguer = "=0.11.0"
dirs = "=7.0.0"
libc = "=0.2.191"
regex = "=1.13.1"
reqwest = { version = "=0.12.28", default-features = false, features = ["rustls-tls"] }
serde = { version = "=1.0.229", features = ["derive"] }
serde_json = "=1.0.154"
tokio = { version = "=1.54.1", features = ["rt-multi-thread", "macros", "net", "io-util"] }
toml = "=1.1.8"
windows-sys = { version = "=0.61.2", features = ["Win32_System_Console", "Win32_Foundation"] }
