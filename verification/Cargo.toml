[package]
name = "name_resolver"
version = "0.1.0"
edition = "2021"
publish = false

[dependencies]
serde_json = "*"
reqwest = { version = "*", default-features = false }
tokio = { version = "*", features = ["macros", "rt-multi-thread", "fs", "sync", "io-util", "time"] }
bpaf = { version = "*", features = ["derive"] }
eyre = "*"

[dev-dependencies]
uuid = "*"
