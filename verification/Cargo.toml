[package]
name = "gigatoken"
version = "0.1.0"
edition = "2021"
publish = false

[dependencies]
aho-corasick = "=1.1.5"
arrow-array = "=60.1.0"
arrow-schema = "=60.1.0"
base64 = "=0.22.1"
eyre = "=0.6.14"
flate2 = "=1.1.10"
icu = "=2.4.0"
memchr = "=2.8.3"
memmap2 = "=0.9.12"
parquet = { version = "=60.1.0", default-features = false, features = ["arrow", "snap"] }
priority-queue = "=2.7.0"
rayon = "=1.12.0"
serde = { version = "=1.0.229", features = ["derive"] }
sonic-rs = "=0.5.10"
spm_precompiled = "=0.1.4"
unicode-segmentation = "=1.13.3"
zstd = "=0.14.3"

[dev-dependencies]
fancy-regex = "=0.20.0"
rand = "=0.9.5"
