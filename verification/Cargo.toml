[package]
name = "rkernel"
version = "0.1.0"
edition = "2021"
publish = false

[dependencies]
xmas-elf = "*"
riscv = "*"
log = "*"
bitflags = "*"
