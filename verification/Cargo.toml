[package]
name = "fantasyconsole"
version = "0.1.0"
edition = "2021"
publish = false

[dependencies]
png = "0.17"
serde = { version = "1", features = ["derive"] }
serde_json = "1"
crossbeam-channel = "0.5"
mlua = { version = "0.9", features = ["lua54", "vendored"] }
sdl2 = "0.36"
