[package]
name = "shared_objects"
version = "0.1.0"
edition = "2021"
publish = false

[dependencies]
thread_local = "1"
