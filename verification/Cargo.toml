[package]
name = "libinput_scroll_hook"
version = "0.1.0"
edition = "2021"
publish = false

[dependencies]
libc = "0.2"
