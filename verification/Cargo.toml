[package]
name = "easy_fs"
version = "0.1.0"
edition = "2021"
publish = false

[dependencies]
axfs_vfs = "=0.1.2"
spin = "0.9"
aml = "0.16"
acpi = "4.1"
lazyinit = "0.1"
memory_addr = "0.1"
x86 = "0.52"
