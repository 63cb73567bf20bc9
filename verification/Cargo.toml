[package]
name = "slotted_pig_lib"
version = "0.1.0"
edition = "2021"
publish = false

[dependencies]
anyhow = "1"
bigdecimal = { version = "0.4", features = ["serde"] }
chrono = { version = "0.4", features = ["serde"] }
clap = { version = "4", features = ["derive"] }
csv = "1"
dateparser = "0.2"
displaydoc = "0.2"
glob = "0.3"
regex = "1"
serde = { version = "1", features = ["derive"] }
serde_yaml = "0.9"
sloggers = "2"
strum = { version = "0.26", features = ["derive"] }
thiserror = "1"
