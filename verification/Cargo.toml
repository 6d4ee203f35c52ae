[package]
name = "uftwo"
version = "0.3.0"
edition = "2021"
publish = false

[dependencies]
md5 = "*"
clap = { version = "4", features = ["derive"] }
clap-num = "1"
anyhow = "1"
