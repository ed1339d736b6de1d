[package]
name = "zoneinfo"
version = "0.1.0"
edition = "2021"
publish = false

[dependencies]
cliclack = "*"
color-eyre = "*"
console = "*"
env_logger = "*"
fs-err = "*"
indoc = "*"
nix = "*"
thiserror = "*"
