[package]
name = "activation-manager"
version = "0.1.0"
edition = "2021"
publish = false

[dependencies]
petgraph = "0.6"
sha2 = "0.10"
base16 = "0.2"
mlua = { version = "0.9", features = ["lua54", "vendored", "serialize"] }
rune = "0.13"
rune-modules = "0.13"
tokio = { version = "1", features = ["rt-multi-thread", "macros"] }
clap = { version = "4", features = ["derive"] }
eyre = "0.6"
color-eyre = "0.6"
tracing = "0.1"
tracing-subscriber = { version = "0.3", features = ["env-filter"] }
serde = { version = "1", features = ["derive"] }
once_cell = "1"
