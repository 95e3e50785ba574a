[package]
name = "ps2-backup-tool"
version = "0.1.0"
edition = "2021"
publish = false

[dependencies]
crc32fast = "1"
hex = "0.4"
libc = "0.2"
serde = { version = "1", features = ["derive"] }
serde_json = "1"
sha2 = "*"
thiserror = "2"
tokio = { version = "1", features = ["rt"] }
windows-sys = { version = "0.59", features = ["Win32_Foundation", "Win32_Storage_FileSystem", "Win32_System_IO"] }
xxhash-rust = { version = "0.8", features = ["xxh3"] }
