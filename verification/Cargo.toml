[package]
name = "facto_exporter"
version = "0.1.0"
edition = "2021"
publish = false

[dependencies]
anyhow = "*"
archiv = "*"
axum = "*"
cpp_demangle = "*"
elf = "*"
nix = { version = "*", features = ["ptrace", "process", "uio", "signal"] }
reqwest = { version = "*", default-features = false }
serde = { version = "*", features = ["derive"] }
serde_json = "*"
signal-hook = "*"
time = { version = "*", features = ["formatting", "parsing", "serde", "serde-well-known"] }
tokio = { version = "*", features = ["full"] }
