[package]
name = "sonic"
version = "0.1.0"
edition = "2021"
publish = false

[dependencies]
aluvm = { version = "=0.12.0", features = ["std", "serde"] }
amplify = { version = "=4.9.0", features = ["serde"] }
anyhow = "=1.0.104"
aora = "=0.6.4"
baid64 = "=0.4.2"
binfile = "=0.2.0"
chrono = "=0.4.45"
clap = { version = "=4.6.7", features = ["derive"] }
commit_verify = { version = "=0.12.1", features = ["serde"] }
fluent-uri = "=0.4.1"
indexmap = "=2.14.2"
percent-encoding = "=2.3.2"
serde = { version = "=1.0.229", features = ["derive"] }
serde_yaml = "=0.9.34"
strict_encoding = { version = "=2.9.1", features = ["serde"] }
strict_types = { version = "=2.9.1", features = ["serde"] }
toml = "=1.1.8"
ultrasonic = { version = "=0.12.0", features = ["std", "serde"] }

[dev-dependencies]
rand = "=0.10.3"
