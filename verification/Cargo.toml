[package]
name = "dexdumper"
version = "0.1.0"
edition = "2021"
publish = false

[dependencies]
adler2 = "2"
anyhow = "1"
aya = "0.13"
clap = { version = "4", features = ["derive"] }
goblin = "0.9"
hex = "0.4"
libc = "0.2"
object = "0.36"
serde = { version = "1", features = ["derive"] }
serde_json = "1"
sha1 = "0.10"
thiserror = "1"

[dev-dependencies]
tempfile = "3"
