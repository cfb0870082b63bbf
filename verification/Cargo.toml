[package]
name = "desktop_lib"
version = "0.1.0"
edition = "2021"
publish = false

[dependencies]
serde = { version = "1", features = ["derive"] }
sysinfo = "*"
tokio = { version = "1", features = ["fs", "macros", "rt-multi-thread", "sync", "time"] }
