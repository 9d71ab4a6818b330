[package]
name = "buttplug_lite"
version = "2.3.0"
edition = "2021"
publish = false

[dependencies]
directories = "*"
