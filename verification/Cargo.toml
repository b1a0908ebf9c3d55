[package]
name = "nrs"
version = "0.1.0"
edition = "2021"
publish = false

[dependencies]
clap = { version = "*", features = ["derive"] }
clap_autocomplete = "*"
colored = "*"
dirs = "*"
reqwest = { version = "*", default-features = false, features = ["blocking"] }
thiserror = "*"
