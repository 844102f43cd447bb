[package]
name = "mangix"
version = "0.1.0"
edition = "2021"
publish = false

[dependencies]
anyhow = "1"
image = { version = "0.25", default-features = false, features = ["jpeg", "png", "gif", "webp", "bmp", "tiff"] }
zip = { version = "*", default-features = false, features = ["deflate"] }
pdfium-render = "*"
slint = { version = "1", default-features = false, features = ["std", "compat-1-2"] }
rfd = "*"
raw-window-handle = "0.6"
windows-sys = { version = "0.59", features = ["Win32_Foundation", "Win32_System_Ole", "Win32_UI_Shell", "Win32_UI_WindowsAndMessaging"] }
