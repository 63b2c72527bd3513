[package]
name = "archivindex_warc"
version = "0.1.0"
edition = "2021"
publish = false

[dependencies]
chrono = { version = "=0.4.45", default-features = false, features = ["std", "clock"] }
file-format = { version = "=0.29.0", features = ["reader-txt"] }
fluent-uri = "=0.4.1"
http = "=1.5.0"
libflate = "=2.3.2"
md-5 = "=0.10.6"
rustls = { version = "=0.23.46", default-features = false, features = ["ring", "std", "tls12"] }
serde = { version = "=1.0.229", features = ["derive"] }
serde_json = "=1.0.154"
sha1 = "=0.10.7"
sha2 = "=0.10.9"
thiserror = "=2.0.21"
uuid = { version = "=1.29.0", features = ["v4"] }
webpki-roots = "=1.0.10"
