[package]
name = "ocr_win"
version = "0.1.0"
edition = "2021"
publish = false

[dependencies]
anyhow = "=1.0.104"
utf16_lit = "=2.0.2"
windows = { version = "=0.52.0", features = ["Foundation", "Foundation_Collections", "Globalization", "Graphics_Imaging", "Media_Ocr", "Storage_Streams", "Win32_Foundation", "Win32_Graphics_Gdi", "Win32_System_DataExchange", "Win32_System_LibraryLoader", "Win32_System_Memory", "Win32_System_Ole", "Win32_System_WinRT", "Win32_UI_Controls", "Win32_UI_Controls_RichEdit", "Win32_UI_WindowsAndMessaging"] }
