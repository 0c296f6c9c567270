[package]
name = "kdbx_forum"
version = "0.1.0"
edition = "2021"
publish = false

[dependencies]
sha2 = "*"
chacha20 = "*"
rand = "*"
serde = { version = "*", features = ["derive"] }
axum = "*"
tokio = { version = "*", features = ["macros", "rt-multi-thread", "net", "sync"] }
clap = { version = "*", features = ["derive"] }
rpassword = "*"
