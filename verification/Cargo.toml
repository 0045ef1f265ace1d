[package]
name = "seal"
version = "0.2.0"
edition = "2021"
publish = false

[dependencies]
is_executable = "*"
mlua = { version = "*", features = ["lua54", "vendored"] }
nix = { version = "0.30", features = ["signal", "process", "fs", "user", "hostname", "term"] }
rustyline = "*"
thiserror = "*"
