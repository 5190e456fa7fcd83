[package]
name = "gmod_manager"
version = "0.5.0"
edition = "2021"
publish = false

[dependencies]
serde = { version = "1", features = ["derive"] }
serde_json = "1"
zip = { version = "2", default-features = false, features = ["deflate"] }
zstd = "0.13"
lzma-rs = "0.3"
sha2 = "0.10"
ureq = "2"
image = { version = "0.25", default-features = false, features = ["png", "jpeg"] }
sysinfo = "0.33"
winreg = "0.52"
windows-sys = { version = "0.59", features = ["Win32_Foundation", "Win32_Storage_FileSystem", "Win32_UI_Shell", "Win32_UI_WindowsAndMessaging"] }
