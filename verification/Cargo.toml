[package]
name = "av1_grain"
version = "0.1.0"
edition = "2021"
publish = false

[dependencies]
anyhow = "=1.0.104"
arrayvec = "=0.7.8"
rayon = "=1.12.0"
v_frame = { version = "=0.5.2", features = ["padding_api"] }
