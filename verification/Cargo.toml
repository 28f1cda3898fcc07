[package]
name = "env_overlay"
version = "0.1.0"
edition = "2021"
publish = false

[dependencies]
dotenvy = "0.15"
log = "0.4"
deno_terminal = "*"
