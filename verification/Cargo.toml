[package]
name = "community-analyzer"
version = "0.1.0"
edition = "2021"
publish = false

[dependencies]
aho-corasick = "=1.1.5"
regex = "=1.13.1"
sha2 = "=0.10.9"
rand = "=0.8.8"
rand_chacha = "=0.3.1"
chrono = { version = "=0.4.45", features = ["serde"] }
petgraph = "=0.6.5"
lindera = "=6.2.0"
serde = { version = "=1.0.229", features = ["derive"] }
serde_json = "=1.0.154"
figment = { version = "=0.10.19", features = ["toml"] }
plotters = { version = "=0.3.7", default-features = false, features = ["svg_backend", "line_series"] }
tokio = { version = "=1.54.1", features = ["process", "io-util", "rt", "macros"] }
once_cell = "=1.21.4"
candle-core = "=0.9.2"
candle-nn = "=0.9.2"
candle-transformers = "=0.9.2"
tokenizers = { version = "=0.23.2", default-features = false, features = ["onig"] }
hf-hub = { version = "=0.5.0", default-features = false, features = ["ureq", "rustls-tls"] }
ndarray = "=0.17.2"
petal-clustering = "=0.14.0"
