[package]
name = "flower"
version = "0.1.0"
edition = "2021"
publish = false

[dependencies]
anyhow = "*"
aya = "*"
aya-log = "*"
env_logger = "*"
libc = "*"
log = "*"
mio = { version = "*", features = ["os-poll", "os-ext"] }
tokio = { version = "*", features = ["macros", "rt-multi-thread"] }
