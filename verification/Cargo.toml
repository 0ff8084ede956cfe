[package]
name = "guix_crates"
version = "0.1.0"
edition = "2021"
publish = false

[dependencies]
nom = "=7.1.3"
gix = { version = "=0.90.0", default-features = false, features = ["blocking-network-client", "blocking-http-transport-reqwest-rust-tls", "sha1"] }
