[package]
name = "bbf"
version = "0.1.0"
edition = "2021"
publish = false

[dependencies]
xxhash-rust = { version = "0.8", features = ["xxh3"] }
memmap2 = "0.9"
zip = { version = "2", default-features = false, features = ["deflate"] }
tar = "0.4"
sevenz-rust = "0.6"
jni = "0.21"
