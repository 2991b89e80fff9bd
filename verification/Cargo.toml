[package]
name = "flboot"
version = "0.2.0"
edition = "2021"
publish = false

[dependencies]
anyhow = "1"
clap = { version = "4", features = ["derive"] }
flate2 = "1"
indexmap = { version = "2", features = ["serde"] }
lzma-rs = "0.3"
objdiff-core = { version = "3", features = ["x86"] }
regex = "1"
serde = { version = "1", features = ["derive"] }
serde_json = "1"
sha1 = "0.10"
tar = "0.4"
ureq = "3"
which = "8"
windows-sys = { version = "0.61", features = ["Win32_Foundation", "Win32_System_Console"] }
zip = "*"
