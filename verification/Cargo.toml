[package]
name = "vcs_core"
version = "0.1.0"
edition = "2021"
publish = false

[dependencies]
clap = { version = "4", features = ["derive"] }
crossterm = "*"
git2 = { version = "*", default-features = false }
itertools = "*"
os_pipe = "*"
pest = "*"
pest_derive = "*"
rpassword = "*"
serde = { version = "1", features = ["derive"] }
streampager = "*"
thiserror = "*"
tracing = "*"
