[package]
name = "ecs_scheduler"
version = "0.1.0"
edition = "2021"
publish = false

[dependencies]
fixedbitset = "*"
async-channel = "*"
