[package]
name = "querystring"
version = "0.1.0"
edition = "2021"
publish = false

[dependencies]
async-trait = "0.1"
axum-core = "0.4"
http = "1"
