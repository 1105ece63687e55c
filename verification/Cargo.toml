[package]
name = "gtf_tpm_combinator"
version = "0.1.0"
edition = "2021"
publish = false

[dependencies]
clap = "4"
