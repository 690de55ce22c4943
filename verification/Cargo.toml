[package]
name = "smt-log-parser"
version = "0.1.0"
edition = "2021"
publish = false

[dependencies]
fxhash = "0.2"
petgraph = "0.6"
roaring = "0.10"
semver = "1"
typed-index-collections = "3"
serde = { version = "1", features = ["derive"] }
yew = { version = "0.21", features = ["csr"] }
gloo = "0.11"
web-sys = { version = "0.3", features = ["HtmlInputElement"] }
