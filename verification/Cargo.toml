[package]
name = "sqlx_query"
version = "0.1.0"
edition = "2021"
publish = false

[dependencies]
base64 = "0.22"
cel = "*"
chrono = { version = "0.4", default-features = false, features = ["std", "alloc", "clock"] }
postcard = { version = "1", features = ["alloc"] }
proc-macro2 = "1"
quote = "1"
regex = "1"
serde = { version = "1", features = ["derive"] }
sqlparser = { version = "*", features = ["visitor"] }
sqlx = { version = "*", default-features = false, features = ["postgres", "mysql", "sqlite", "chrono", "uuid"] }
syn = { version = "2", features = ["full"] }
uuid = "1"
