[package]
name = "gluon_frontend"
version = "0.1.0"
edition = "2021"
publish = false

[dependencies]
codespan = "0.3"
codespan-reporting = "0.3"
futures = "0.1"
