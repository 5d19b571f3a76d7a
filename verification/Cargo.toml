[package]
name = "acquire_rs"
version = "0.1.0"
edition = "2021"
publish = false

[dependencies]
rand = "0.8"
owo-colors = "3"
read_input = "0.8"
clap = "3"
local-ip-address = "0.5"
