[package]
name = "elba"
version = "0.1.0"
edition = "2021"
publish = false

[dependencies]
sha2 = "*"
Inflector = "*"
url = "*"
toml = "*"
serde = { version = "*", features = ["derive"] }
semver = "*"
flate2 = "*"
tar = "*"
symlink = "*"
glob = "*"
walkdir = "*"
scoped_threadpool = "*"
reqwest = { version = "*", default-features = false, features = ["blocking"] }
