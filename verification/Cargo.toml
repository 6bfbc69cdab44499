[package]
name = "limbo_core"
version = "0.1.0"
edition = "2021"
publish = false

[dependencies]
limbo_sqlite3_parser = "*"
rusqlite = "*"
tempfile = "*"
