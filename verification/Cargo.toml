[package]
name = "netmonitor"
version = "0.1.0"
edition = "2021"
publish = false

[dependencies]
anyhow = "1"
serde = { version = "1", features = ["derive"] }
serde_json = "1"
interprocess = "2"
sysinfo = "0.33"
ferrisetw = "1"
windows = { version = "0.58", features = ["Win32_Foundation", "Win32_NetworkManagement_IpHelper", "Win32_NetworkManagement_Ndis", "Win32_Networking_WinSock", "Win32_UI_Shell", "Win32_UI_WindowsAndMessaging", "Win32_Storage_Packaging_Appx", "Win32_System_Threading", "Win32_Storage_FileSystem", "Win32_System_WinRT", "Management_Deployment", "ApplicationModel", "Foundation_Collections"] }
