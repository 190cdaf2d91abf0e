[package]
name = "nom_recursive"
version = "0.1.0"
edition = "2021"
publish = false

[dependencies]
nom = "=8.0.0"
nom_locate = "=5.0.0"
