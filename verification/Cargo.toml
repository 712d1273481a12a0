[package]
name = "xrandr"
version = "0.1.0"
edition = "2021"
publish = false

[dependencies]
x11 = { version = "*", features = ["xlib", "xrandr"] }
indexmap = "*"
serde = { version = "*", features = ["derive"] }
thiserror = "*"
