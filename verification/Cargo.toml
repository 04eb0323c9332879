[package]
name = "trill"
version = "0.1.0"
edition = "2021"
publish = false

[dependencies]
codespan-reporting = "*"
itertools = "0.14"
rand = "0.9"
rapidhash = "4"
rustc_apfloat = "0.2"
ustr = "1"
