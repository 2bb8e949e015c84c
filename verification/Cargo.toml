[package]
name = "sherlock"
version = "0.1.0"
edition = "2021"
publish = false

[dependencies]
addr2line = "*"
crossterm = "*"
ctor = "*"
libc = "*"
memmap2 = "*"
object = "*"
ratatui = "*"
