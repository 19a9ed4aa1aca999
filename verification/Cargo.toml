[package]
name = "dfsnode"
version = "0.1.0"
edition = "2021"
publish = false

[dependencies]
anyhow = "*"
arc-swap = "*"
base64 = "*"
bytes = "*"
chrono = { version = "*", default-features = false, features = ["std"] }
futures-util = "*"
hmac = "*"
hyper = { version = "*", features = ["full"] }
hyper-staticfile = "*"
hyper-util = { version = "*", features = ["full"] }
lazy_static = "*"
librqbit = "*"
moka = { version = "*", features = ["future"] }
prometheus = { version = "*", default-features = false }
radix_trie = "*"
reqwest = { version = "*", default-features = false }
serde = { version = "*", features = ["derive"] }
serde_yml = "*"
sha2 = "*"
tokio = { version = "*", features = ["full"] }
tracing = "*"

[dev-dependencies]
hex = "*"
serde-querystring = "*"
