[package]
name = "tdb_search"
version = "0.1.0"
edition = "2021"
publish = false

[dependencies]
form_urlencoded = "1.2"
arrow-array = { version = "58", default-features = false }
arrow-schema = { version = "58", default-features = false }
futures = { version = "0.3", default-features = false, features = ["std"] }
serde = { version = "1", features = ["derive"] }
tokio = { version = "1", default-features = false, features = ["fs", "macros", "rt", "sync", "time"] }
tokio-util = { version = "0.7", default-features = false }
