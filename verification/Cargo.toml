[package]
name = "crawl"
version = "0.1.0"
edition = "2021"
publish = false

[dependencies]
async-channel = "*"
async-std = "1"
async-trait = "*"
crossbeam-channel = "*"
