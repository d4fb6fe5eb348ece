[package]
name = "spisim"
version = "0.1.0"
edition = "2021"
publish = false

[dependencies]
rand = "0.7"
csv = "1"
structopt = "0.3"
combine = "3"
combine-language = "3"
