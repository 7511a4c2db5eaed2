[package]
name = "snipjar"
version = "0.1.0"
edition = "2021"
publish = false

[dependencies]
rusqlite = { version = "*", features = ["bundled"] }
uuid = { version = "1", features = ["v4"] }
time = { version = "0.3", features = ["formatting"] }
arboard = { version = "3", default-features = false }
enigo = "*"
serde = { version = "1", features = ["derive"] }
