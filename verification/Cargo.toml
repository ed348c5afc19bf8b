[package]
name = "swiss_table"
version = "0.1.0"
edition = "2021"
publish = false

[dependencies]
bytecheck = "0.8"
hashbrown = "0.15"
rancor = "0.1"
