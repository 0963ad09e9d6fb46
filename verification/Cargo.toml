[package]
name = "tessera"
version = "0.1.0"
edition = "2021"
publish = false

[dependencies]
image = { version = "*", default-features = false, features = ["png"] }
regex = "*"
serde = { version = "*", features = ["derive"] }
simd-json = "*"
thiserror = "*"
tokio = { version = "*", features = ["rt-multi-thread", "fs", "sync", "macros"] }
rayon = "*"
futures-util = "*"
dashmap = "*"
foldhash = "*"
libdeflater = "*"
memmap2 = "*"
rawzip = "*"
mimalloc = "*"
ultraviolet = "*"
syn = { version = "*", features = ["full"] }
quote = "*"
proc-macro2 = "*"
prettyplease = "*"
