[package]
name = "t4ach"
version = "0.1.0"
edition = "2021"
publish = false

[dependencies]
ego-tree = "*"
sqlx = { version = "*", default-features = false, features = ["any", "sqlite", "runtime-tokio"] }
tokio = { version = "*", features = ["macros", "rt-multi-thread"] }
clap = { version = "*", features = ["derive"] }
snafu = "*"
