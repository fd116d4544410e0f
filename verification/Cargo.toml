[package]
name = "argand"
version = "0.1.0"
edition = "2021"
publish = false

[dependencies]
icu_decimal = "=2.4.0"
icu_locale_core = "=2.4.0"
fixed_decimal = "=0.7.3"
icu_provider = { version = "=2.4.0", features = ["sync"] }
serde = { version = "=1.0.229", features = ["derive"] }
toml = "=1.1.8"
clap = { version = "=4.6.7", features = ["derive"] }
dirs = "=7.0.0"
rayon = "=1.12.0"
libc = "=0.2.191"
tracing = "=0.1.44"
tracing-subscriber = { version = "=0.3.23", features = ["env-filter"] }
async-channel = "=2.5.0"
anyhow = "=1.0.104"
