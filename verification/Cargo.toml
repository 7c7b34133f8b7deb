[package]
name = "voxel_territory"
version = "0.1.0"
edition = "2021"
publish = false

[dependencies]
base64 = "0.21"
byteorder = "1"
crossbeam = "0.8"
ndarray = "0.15"
quick-xml = "0.27"
resvg = "0.28"
