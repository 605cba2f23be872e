[package]
name = "atomic-dbg"
version = "0.1.0"
edition = "2021"
publish = false

[dependencies]
errno = "0.3"
log = "0.4"
rustix = { version = "1", features = ["stdio", "pipe"] }
is-terminal = "0.4"
io-lifetimes = "2"
windows-sys = { version = "0.59", features = ["Win32_Foundation", "Win32_Storage_FileSystem", "Win32_System_Console", "Win32_System_IO"] }
