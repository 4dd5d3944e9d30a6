[package]
name = "corrosios"
version = "0.1.0"
edition = "2021"
publish = false

[dependencies]
arrayvec = { version = "=0.7.8", default-features = false }
itertools = { version = "=0.10.5", default-features = false }
ucs2 = "0.3"
anyhow = "=1.0.104"
argh = "=0.1.19"
cargo_metadata = "=0.15.4"
fatfs = "=0.3.6"
fscommon = "=0.1.1"
gpt = "=3.1.0"
