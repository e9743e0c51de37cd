[package]
name = "pointcloud"
version = "0.1.0"
edition = "2021"
publish = false

[dependencies]
hashbrown = "*"
fxhash = "*"
smallvec = "1"
glob = "*"
yaml-rust = "*"
