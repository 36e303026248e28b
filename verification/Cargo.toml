[package]
name = "split_bam_by_reads"
version = "0.1.0"
edition = "2021"
publish = false

[dependencies]
anyhow = "*"
clap = { version = "*", features = ["derive"] }
env_logger = "*"
indicatif = "*"
log = "*"
rayon = "*"
rust-htslib = "*"
