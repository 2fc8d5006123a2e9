[package]
name = "spindle_core"
version = "0.1.0"
edition = "2021"
publish = false

[dependencies]
fixedbitset = "=0.5.7"
rustc-hash = "=2.1.3"
smallvec = "1"
