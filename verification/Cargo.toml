[package]
name = "fsx_tools"
version = "0.1.0"
edition = "2021"
publish = false

[dependencies]
chrono = "0.4"
clap = { version = "4", features = ["derive"] }
dashmap = "6"
filetime = "0.2"
is-terminal = "0.4"
jwalk = "0.8"
lscolors = "*"
nix = { version = "*", features = ["fs"] }
rayon = "1"
regex = "1"
rustc-hash = "2"
sha2 = "0.10"
tempfile = "3"
