[package]
name = "osirs"
version = "0.1.0"
edition = "2021"
publish = false

[dependencies]
x86_64 = { version = "0.14", default-features = false, features = ["instructions"] }
spin = "0.9"
lazy_static = "1.4"
pc-keyboard = "0.7"
pic8259 = "0.10"
linked_list_allocator = "0.9"
bootloader = "0.9"
