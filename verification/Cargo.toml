[package]
name = "rtop_rs"
version = "0.1.0"
edition = "2021"
publish = false

[dependencies]
chrono = "=0.4.45"
home = "=0.5.12"
libloading = "=0.9.0"
ncurses = "=5.101.0"
serde = { version = "=1.0.229", features = ["derive"] }
serde_json = "=1.0.154"
sysinfo = "=0.39.6"
tokio = { version = "=1.54.1", features = ["full"] }
unicode-segmentation = "=1.13.3"
