[package]
name = "daft_ext"
version = "0.1.0"
edition = "2021"
publish = false

[dependencies]
arrow = { version = "=59.3.2", default-features = false }
arrow-array = "=59.3.2"
duckdb = { version = "=1.10506.1", default-features = false, features = ["appender-arrow"] }
geo = { version = "=0.33.1", default-features = false }
geohash = "=0.13.2"
pyo3 = { version = "=0.30.1", default-features = false, features = ["macros", "abi3-py39"] }
serde = { version = "1", features = ["derive"] }
typetag = "=0.2.23"
