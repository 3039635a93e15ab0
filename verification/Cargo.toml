[package]
name = "hugalloc"
version = "0.1.0"
edition = "2021"
publish = false

[dependencies]
crossbeam-deque = "0.8"
libc = "0.2"
page_size = "0.6"
thiserror = "1"
