[package]
name = "gimp_curve_to_icc"
version = "0.1.0"
edition = "2021"
publish = false

[dependencies]
clap = { version = "4", features = ["derive"] }
lcms2 = "6"
regex = "1"

[dev-dependencies]
itertools = "*"
