[package]
name = "pg_bigmr"
version = "0.1.0"
edition = "2021"
publish = false

[dependencies]
pgrx = "*"
