[package]
name = "amethyst_physics"
version = "0.1.0"
edition = "2021"
publish = false

[dependencies]
hibitset = { version = "0.5", default-features = false }
log = "0.4"
specs-physics = { version = "0.2", default-features = false }
