[package]
name = "bo_cc"
version = "0.1.0"
edition = "2021"
publish = false

[dependencies]
encoding_rs = "*"
chardetng = "*"
tl = "*"
flate2 = "*"
xz2 = { version = "*", features = ["static"] }
reqwest = { version = "*", default-features = false, features = ["blocking"] }
log = "*"
env_logger = "*"
rayon = "*"

[dev-dependencies]
serde_json = "*"
