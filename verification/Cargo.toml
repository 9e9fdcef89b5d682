[package]
name = "rs_mitm"
version = "0.1.0"
edition = "2021"
publish = false

[dependencies]
async-channel = "2"
eyre = "0.6"
intrusive-collections = "0.9"
pem = "3"
rcgen = { version = "0.13", features = ["x509-parser"] }
rustls = "0.23"
rustls-pki-types = "1"
time = "0.3"
tokio = { version = "1", features = ["fs", "macros", "rt-multi-thread"] }
tracing = "0.1"
x509-parser = "0.16"
