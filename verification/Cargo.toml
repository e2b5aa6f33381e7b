[package]
name = "pinenote_service"
version = "0.1.0"
edition = "2021"
publish = false

[dependencies]
anyhow = "1"
futures-lite = "2"
image = { version = "0.25", default-features = false, features = ["png", "jpeg", "bmp"] }
inotify = "0.11"
nalgebra = "0.33"
niri-ipc = "25.11"
nix = { version = "0.30", features = ["ioctl", "fs"] }
num_enum = "0.7"
serde = { version = "1", features = ["derive"] }
swayipc-async = "2"
thiserror = "2"
tokio = { version = "1", features = ["rt-multi-thread", "macros", "sync", "signal", "time", "fs", "io-util"] }
uuid = { version = "1", features = ["v4"] }
zbus = { version = "5", default-features = false, features = ["tokio"] }
