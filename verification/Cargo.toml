[package]
name = "rv64_mm"
version = "0.1.0"
edition = "2021"
publish = false

[dependencies]
riscv = "*"
sbi = "*"
spin = "*"
fdt = "*"
