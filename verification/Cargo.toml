[package]
name = "hardlink_dedup"
version = "0.1.0"
edition = "2021"
publish = false

[dependencies]
blake3 = { version = "1", default-features = false, features = ["pure"] }
clap = { version = "4", features = ["derive"] }
fastmurmur3 = "*"
glob = "0.3"
memmap = "0.7"
windows = { version = "0.48", features = ["Win32_Foundation", "Win32_Storage_FileSystem"] }
