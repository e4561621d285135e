[package]
name = "evfs"
version = "0.1.0"
edition = "2021"
publish = false

[dependencies]
crossbeam-channel = "0.5"
ftp = "3"
log = "0.4"
thiserror = "1"
walkdir = "2"
zip = "0.5"
