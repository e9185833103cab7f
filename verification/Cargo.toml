[package]
name = "module_generics"
version = "0.1.0"
edition = "2021"
publish = false
