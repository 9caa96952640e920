[package]
name = "dirwatch"
version = "1.0.0"
edition = "2021"
publish = false

[dependencies]
encoding_rs = "=0.8.44"
iced = { version = "=0.14.0", default-features = false, features = ["tiny-skia", "tokio", "x11"] }
notify = "=8.2.1"
rfd = { version = "=0.17.2", default-features = false, features = ["xdg-portal"] }
windows = { version = "*", features = ["Win32_Foundation", "Win32_UI_WindowsAndMessaging"] }
