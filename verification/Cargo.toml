[package]
name = "nlm"
version = "2.0.0"
edition = "2021"
publish = false

[dependencies]
clap = { version = "4.6", features = ["derive", "wrap_help"] }
crossterm = "0.28.1"
ctrlc = "3.5"
egui = "0.34.3"
egui_extras = "0.34.3"
egui_software_backend = "0.0.3"
libc = "0.2"
rfd = "0.15.4"
windows-sys = { version = "0.61", features = ["Win32_Foundation", "Win32_NetworkManagement_IpHelper", "Win32_NetworkManagement_Ndis", "Win32_Networking_WinSock"] }
winreg = "0.52"
