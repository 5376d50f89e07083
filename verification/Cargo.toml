[package]
name = "browser_switcher"
version = "0.1.3"
edition = "2021"
publish = false

[dependencies]
winreg = "0.55"
windows = { version = "0.61", features = ["Win32_Foundation", "Win32_Graphics_Gdi", "Win32_Storage_FileSystem", "Win32_UI_Shell", "Win32_UI_WindowsAndMessaging"] }
