[package]
name = "percussiveglitchbpm"
version = "0.1.0"
edition = "2021"
publish = false

[dependencies]
hound = "3"
rand = "0.8"
