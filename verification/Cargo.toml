[package]
name = "gamepad-facade"
version = "0.1.0"
edition = "2021"
publish = false

[dependencies]
js-sys = "0.3"
log = "0.4"
sdl3 = "0.18"
send_wrapper = "0.6"
wasm-bindgen = "0.2"
web-sys = { version = "0.3", features = ["Gamepad", "GamepadButton", "GamepadMappingType", "Navigator", "Window"] }
