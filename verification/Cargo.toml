[package]
name = "term_data_table"
version = "0.1.0"
edition = "2021"
publish = false

[dependencies]
unicode-linebreak = "*"
unicode-width = "*"
regex = "*"
serde = "*"
serde_json = "*"
anyhow = "*"
terminal_size = "*"
