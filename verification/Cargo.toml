[package]
name = "vim-profiler"
version = "0.1.0"
edition = "2021"
publish = false

[dependencies]
regex = "1"
snafu = "0.6"
structopt = "0.3"
csv = "1"
charts = "0.3"
log = "0.4"
env_logger = "*"

[dev-dependencies]
textwrap = "*"
