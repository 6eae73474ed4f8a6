[package]
name = "kernel_core"
version = "0.1.0"
edition = "2021"
publish = false

[dependencies]
bootloader_api = "=0.11.17"
x86_64 = "=0.15.5"
x86 = "=0.52.0"
raw-cpuid = "=11.6.0"
spin = "=0.9.9"
lazy_static = "=1.5.1"
bit_field = "=0.10.3"
