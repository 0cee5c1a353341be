[package]
name = "rna_secondary_structure"
version = "0.1.0"
edition = "2021"
publish = false

[dependencies]
num-bigint = "*"
flate2 = "*"
