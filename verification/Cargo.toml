[package]
name = "mdp"
version = "0.1.0"
edition = "2021"
publish = false

[dependencies]
anyhow = "1"
base64 = "0.22"
blake3 = { version = "1", features = ["pure"] }
clap = { version = "4", features = ["derive", "env"] }
ctrlc = { version = "3", features = ["termination"] }
nix = { version = "*", features = ["signal", "process"] }
notify-debouncer-mini = "*"
opener = "*"
rust-embed = "8"
serde_json = "1"
tempfile = "3"
tracing = "0.1"
tracing-subscriber = { version = "0.3", features = ["env-filter"] }
which = "*"

[dev-dependencies]
toml = "0.8"
