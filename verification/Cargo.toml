[package]
name = "endspiel"
version = "0.1.0"
edition = "2021"
publish = false

[dependencies]
bulletformat = "*"
pyrrhic-rs = "*"
rand = "*"
sysinfo = "*"
thiserror = "*"
log = "*"
