[package]
name = "conject_macro"
version = "0.1.0"
edition = "2021"
publish = false

[dependencies]
const-fnv1a-hash = "1"
data-encoding = "2"
itertools = "*"
syn = { version = "2", features = ["full", "extra-traits"] }
quote = "1"
proc-macro2 = "1"
darling = "*"
