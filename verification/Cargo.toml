[package]
name = "chain_engine"
version = "0.1.0"
edition = "2021"
publish = false

[dependencies]
argon2 = "0.5"
bigdecimal = "0.4"
blake2-rfc = "0.2"
byteorder = "1"
data-encoding = "2"
futures = "0.3"
hex = "0.4"
hmac = "0.12"
hyper = { version = "0.14", features = ["server", "http1", "tcp"] }
log = "0.4"
num-bigint = "0.4"
parking_lot = "0.12"
sha2 = "0.10"
tokio = { version = "1", features = ["rt", "net", "time"] }
