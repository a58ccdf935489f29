[package]
name = "webcam_viewer"
version = "0.1.0"
edition = "2021"
publish = false

[dependencies]
chrono = "0.4.45"
clap = { version = "4.5.61", features = ["derive"] }
ndarray = "0.15.6"
rayon = "1.10.0"
v4l = "0.14.0"
