[package]
name = "bytewhiffer"
version = "0.1.0"
edition = "2021"
publish = false

[dependencies]
eframe = { version = "0.37.0", default-features = false, features = ["glow", "default_fonts", "x11"] }
image = { version = "0.25.10", default-features = false, features = ["png"] }
open = "5.4.5"
rayon = "1.12.0"
rfd = "0.17.2"
trash = "5.2.9"
windows = { version = "0.62.2", features = ["Win32_Foundation", "Win32_Security", "Win32_Storage_FileSystem", "Win32_System_Threading", "Win32_UI_Shell", "Win32_UI_WindowsAndMessaging"] }
