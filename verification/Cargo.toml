[package]
name = "kernel"
version = "0.1.0"
edition = "2021"
publish = false

[dependencies]
bit_field = "0.10"
bitflags = "2"
crossbeam-queue = { version = "0.3", default-features = false, features = ["alloc"] }
futures-util = { version = "0.3", default-features = false, features = ["alloc"] }
lazy_static = { version = "1", features = ["spin_no_std"] }
limine = "*"
log = "0.4"
multiboot2 = "*"
pc-keyboard = "*"
spin = "*"
