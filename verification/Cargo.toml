[package]
name = "ntfs_index"
version = "0.1.0"
edition = "2021"
publish = false

[dependencies]
rayon = "=1.12.0"
num_cpus = "=1.17.0"
windows = { version = "=0.52.0", features = ["Win32_Foundation", "Win32_Storage_FileSystem", "Win32_System_Ioctl", "Win32_System_IO", "Win32_System_Threading", "Win32_Security"] }
