[package]
name = "lammps_util"
version = "0.1.0"
edition = "2021"
publish = false

[dependencies]
kd-tree = "*"
typenum = "*"
itertools = "*"
anyhow = "*"
rayon = "*"
log = "*"
geomutil_util = "*"
