[package]
name = "kymenu"
version = "0.1.0"
edition = "2021"
publish = false

[dependencies]
ab_glyph = "*"
anyhow = "*"
bytemuck = "*"
clap = { version = "*", features = ["derive"] }
fontconfig = "*"
memfd = "*"
memmap2 = "*"
serde = { version = "*", features = ["derive"] }
serde_json = "*"
thiserror = "*"
tracing = "*"
tracing-subscriber = "*"
wayland-client = "*"
wayland-protocols-wlr = { version = "*", features = ["client"] }
xkbcommon = "*"
xkeysym = "*"
