[package]
name = "aws_profile_selector"
version = "0.1.0"
edition = "2021"
publish = false

[dependencies]
anyhow = "*"
clap = "*"
dirs = "*"
inquire = "*"
