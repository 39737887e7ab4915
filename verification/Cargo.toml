[package]
name = "eviltransform_ewkb"
version = "0.1.0"
edition = "2021"
publish = false

[dependencies]
coordtransform = "*"
byteorder = "=1.5.0"
