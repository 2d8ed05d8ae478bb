[package]
name = "tg_kernel"
version = "0.1.0"
edition = "2021"
publish = false

[dependencies]
customizable-buddy = "=0.0.4"
riscv = "=0.10.1"
spin = "=0.9.9"
tg-console = "=0.4.2-preview.1"
tg-easy-fs = "=0.4.2-preview.1"
tg-kernel-context = { version = "=0.4.2-preview.1", features = ["foreign"] }
tg-linker = "=0.4.2-preview.1"
tg-sbi = "=0.4.2-preview.1"
tg-signal = "=0.4.2-preview.1"
tg-signal-impl = "=0.4.2-preview.1"
tg-syscall = { version = "=0.4.2-preview.1", features = ["kernel"] }
tg-task-manage = { version = "=0.4.2-preview.1", features = ["thread"] }
virtio-drivers = "=0.7.5"
xmas-elf = "=0.10.0"
