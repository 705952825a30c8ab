[package]
name = "game_render"
version = "0.1.0"
edition = "2021"
publish = false

[dependencies]
slab = "0.4"
smallvec = "1"
bytemuck = { version = "1", features = ["derive"] }
bitflags = "2"
thiserror = "1"
