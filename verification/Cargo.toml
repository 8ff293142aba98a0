[package]
name = "sector_raster"
version = "0.1.0"
edition = "2021"
publish = false

[dependencies]
rayon = "1"
softbuffer = "0.4"
winit = "0.30"
