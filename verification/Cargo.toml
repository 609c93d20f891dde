[package]
name = "import_utility"
version = "0.1.0"
edition = "2021"
publish = false

[dependencies]
chrono = "=0.4.45"
eframe = { version = "0.24", default-features = false, features = ["default_fonts", "glow", "persistence", "x11"] }
egui_extras = { version = "0.24", default-features = false, features = ["chrono", "datepicker"] }
fs2 = "0.4"
rfd = { version = "0.14", default-features = false, features = ["xdg-portal", "async-std"] }
serde = { version = "1", features = ["derive"] }
walkdir = "2"
