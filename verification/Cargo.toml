[package]
name = "ohw_server"
version = "0.1.0"
edition = "2021"
publish = false

[dependencies]
uuid = { version = "=1.27.0", features = ["v4"] }
postgres = { version = "=0.19.14", features = ["with-uuid-1"] }
openssl = "=0.10.81"
postgres-openssl = "=0.5.3"
