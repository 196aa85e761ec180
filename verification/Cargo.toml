[package]
name = "pactl_sinks"
version = "0.1.0"
edition = "2021"
publish = false
