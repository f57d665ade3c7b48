[package]
name = "postgres_named_parameters"
version = "0.1.0"
edition = "2021"
publish = false

[dependencies]
attribute-derive = "=0.10.5"
postgres = "=0.19.14"
postgres-from-row = "=0.5.2"
proc-macro2 = "=1.0.107"
quote = "=1.0.47"
syn = "=2.0.119"
tokio-postgres = "=0.7.18"
