[package]
name = "snowflake"
version = "0.1.0"
edition = "2021"
publish = false

[dependencies]
uuid = { version = "*", features = ["v4"] }
rand = "*"
chrono = "*"
crc32fast = "*"
md5 = "*"
sha1 = "*"
sha2 = "*"
imagesize = "*"
svg = "*"
gltf = "*"
serde = { version = "*", features = ["derive"] }
serde_json = "*"
