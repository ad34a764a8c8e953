[package]
name = "event_xml_exporter"
version = "0.1.0"
edition = "2021"
publish = false

[dependencies]
anyhow = "1"
chrono = "0.4"
quick-xml = "0.37"
eframe = { version = "0.31", default-features = false, features = ["default_fonts", "glow", "x11"] }
image = { version = "0.25", default-features = false, features = ["ico"] }
rfd = "0.15"
windows = { version = "0.58", features = ["Win32_Foundation", "Win32_System_EventLog"] }
