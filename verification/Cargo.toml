[package]
name = "glyph_codec"
version = "0.1.0"
edition = "2021"
publish = false

[dependencies]
unicode-segmentation = "1"
postcard = { version = "1", default-features = false, features = ["alloc"] }
serde = { version = "1", features = ["derive"] }
arboard = { version = "3", default-features = false }

[dev-dependencies]
rand = "0.8"
