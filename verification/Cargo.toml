[package]
name = "valve_kv"
version = "0.1.0"
edition = "2021"
publish = false
