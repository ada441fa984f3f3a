[package]
name = "random_show_themes"
version = "0.1.0"
edition = "2021"
publish = false

[dependencies]
rand = "=0.8.8"
clap = "4"
csv = "1"
log = "0.4"
serde = { version = "1", features = ["derive"] }
serde_json = "1"
stderrlog = "0.5"
term-table = "1"
terminal_size = "*"
