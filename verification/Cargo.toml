[package]
name = "life_io"
version = "0.1.0"
edition = "2021"
publish = false

[dependencies]
quad-rand = "0.2"
ron = "0.8"
serde = { version = "1", features = ["derive"] }
fxhash = "0.2"
directories = "5"
macroquad = "0.4"
