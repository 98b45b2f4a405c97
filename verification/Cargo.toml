[package]
name = "act_cache_store"
version = "0.1.0"
edition = "2021"
publish = false

[dependencies]
glob = "0.3"
clap = { version = "4", features = ["derive"] }
log = "0.4"
once_cell = "1"
pretty_env_logger = "0.5"
serde = { version = "1", features = ["derive"] }
serde_derive = "1"
tokio = { version = "1", features = ["macros", "rt-multi-thread"] }
warp = "0.3"
