[package]
name = "ramulator_context"
version = "0.1.0"
edition = "2021"
publish = false

[dependencies]
num-bigint = "=0.4.8"
num = "=0.4.3"
derive_more = { version = "=2.1.1", features = ["constructor"] }
half = "=2.7.1"
ramulator_wrapper = "=0.2.6"

[dev-dependencies]
fxhash = "=0.2.1"
