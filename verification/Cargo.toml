[package]
name = "fastrans"
version = "0.1.0"
edition = "2021"
publish = false

[dependencies]
anyhow = "1"
arboard = { version = "3", default-features = false }
ct2rs = "*"
eframe = { version = "*", default-features = false, features = ["default_fonts", "glow", "x11"] }
enigo = { version = "*", default-features = false, features = ["x11rb"] }
flate2 = "1"
global-hotkey = "*"
ureq = "2"
windows-sys = { version = "*", features = ["Win32_Foundation", "Win32_System_Registry", "Win32_UI_WindowsAndMessaging"] }
