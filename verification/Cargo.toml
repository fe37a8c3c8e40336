[package]
name = "templar"
version = "0.1.0"
edition = "2021"
publish = false

[dependencies]
colored = "1"
docopt = "0.8"
filetime = "0.1"
futures = "0.1"
futures-cpupool = "0.1"
hyper = "0.11"
mime_guess = "2.0.0-alpha.2"
nom = "3"
notify = "4"
pad = "0.1"
sass-rs = "0.2"
serde = "1"
serde_derive = "1"
