[package]
name = "rust_os"
version = "0.1.0"
edition = "2021"
publish = false

[dependencies]
pc-keyboard = "=0.5.1"
x86_64 = "0.15"
pic8259 = "0.11"
spin = "=0.9.9"
linked_list_allocator = "0.10"
