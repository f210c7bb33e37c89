[package]
name = "artifice_installer"
version = "0.1.0"
edition = "2021"
publish = false

[dependencies]
libflate = "*"
tar = "*"
walkdir = "*"
dirs = "*"
serde = "*"
serde_derive = "*"
manager = "*"
networking = "*"
