[package]
name = "glauber"
version = "0.1.0"
edition = "2021"
publish = false

[dependencies]
bstr = "*"
rand = "0.8"
rand_pcg = "0.3"
rayon = "*"
serde_json = "*"
ordered-float = "*"
