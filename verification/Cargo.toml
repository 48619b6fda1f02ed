[package]
name = "pulse"
version = "0.1.0"
edition = "2021"
publish = false

[dependencies]
serde = { version = "=1.0.229", features = ["derive"] }
sysinfo = "=0.40.1"
nvml-wrapper = "=0.13.0"
wmi = "=0.18.4"
crossterm = "=0.29.0"
ratatui = "=0.30.2"
windows = { version = "=0.58.0", features = ["Win32_Foundation", "Win32_Security", "Win32_Storage_FileSystem", "Win32_System_IO", "Win32_System_Ioctl", "Win32_System_Console"] }
