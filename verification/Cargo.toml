[package]
name = "fastq_filter"
version = "0.1.0"
edition = "2021"
publish = false

[dependencies]
flate2 = "*"
clap = "*"
rayon = "*"
num_cpus = "*"
