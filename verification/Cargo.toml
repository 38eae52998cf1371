[package]
name = "mail_cli"
version = "0.1.0"
edition = "2021"
publish = false

[dependencies]
anyhow = "1"
console = "0.15"
dialoguer = "0.11"
dirs = "5"
imap = "2"
indicatif = "0.17"
lettre = "0.11"
mailparse = "0.15"
native-tls = "0.2"
serde = { version = "1", features = ["derive"] }
serde_json = "1"
