[package]
name = "tripsu"
version = "0.1.0"
edition = "2021"
publish = false

[dependencies]
blake3 = "*"
rand = "*"
sophia_iri = "*"
curie = "*"
serde = { version = "*", features = ["derive"] }
serde_json = "*"
serde_yml = "*"
clap = { version = "*", features = ["derive"] }
rio_api = "*"
rio_turtle = "*"
io-enum = "*"
smallvec = "*"
slog = "*"
slog-term = "*"
slog-async = "*"
