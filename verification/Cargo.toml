[package]
name = "event_emitter"
version = "0.1.0"
edition = "2021"
publish = false

[dependencies]
backtrace = "0.3"
lazy_static = "1"
