[package]
name = "spartan2"
version = "0.1.0"
edition = "2021"
publish = false

[dependencies]
bellpepper-core = "0.4"
ff = "0.13"
num-bigint = "0.4"
thiserror = "1"
pasta_curves = "0.5"

[dev-dependencies]
rand = "0.8"
