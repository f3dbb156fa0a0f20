[package]
name = "ion_loader"
version = "0.1.0"
edition = "2021"
publish = false

[dependencies]
xmas-elf = "=0.10.0"
raw-cpuid = "=11.6.0"
font8x8 = "=0.3.1"
stivale-boot = "=0.3.1"

[dependencies.uefi]
version = "=0.41.0"
features = ["alloc"]
