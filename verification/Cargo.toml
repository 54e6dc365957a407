[package]
name = "sysfetch"
version = "0.1.0"
edition = "2021"
publish = false

[dependencies]
colored = "3.1.1"
titlecase = "3.6.0"
whoami = "1.6.1"
uname = "0.1.1"
local-ip-address = "0.6.13"
sys-info = "0.9.1"
