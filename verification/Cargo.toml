[package]
name = "talendar"
version = "0.1.0"
edition = "2021"
publish = false

[dependencies]
chrono = "*"
color-eyre = "*"
crossterm = "*"
directories = "*"
google-calendar3 = "*"
hyper = "*"
hyper-rustls = "*"
localzone = "*"
ratatui = "*"
rustls = "*"
tokio = { version = "*", features = ["rt-multi-thread", "macros"] }
webbrowser = "*"
