[package]
name = "rcore_os"
version = "0.1.0"
edition = "2021"
publish = false

[dependencies]
xmas-elf = "*"
riscv = "*"
sbi-rt = "*"
buddy_system_allocator = "*"
