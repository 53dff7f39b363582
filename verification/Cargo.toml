[package]
name = "folor"
version = "0.1.0"
edition = "2021"
publish = false

[dependencies]
clap = { version = "4", features = ["derive"] }
crossbeam-channel = "0.5"
globset = "0.4"
humantime = "2"
is-terminal = "0.4"
libc = "0.2"
notify = "6"
termcolor = "1"
walkdir = "2"
