[package]
name = "bf_interpreter"
version = "0.1.0"
edition = "2021"
publish = false

[dependencies]
ansi_term = "0.12"
clap = { version = "4", features = ["derive"] }
num-traits = "0.2"
text_io = "0.1"
thiserror = "1"
