[package]
name = "galaxy"
version = "0.1.0"
edition = "2021"
publish = false

[dependencies]
anyhow = "=1.0.104"
bytemuck = { version = "=1.25.2", features = ["derive"] }
console_error_panic_hook = "=0.1.7"
console_log = "=1.1.0"
eframe = { version = "=0.37.0", default-features = false, features = ["default_fonts", "wgpu", "x11"] }
egui = { version = "=0.37.0", default-features = false, features = ["default_fonts"] }
egui-wgpu = { version = "=0.37.0", default-features = false }
env_logger = "=0.11.11"
glam = "0.32"
log = "=0.4.35"
lru = "=0.19.0"
rand = "=0.9.5"
rand_chacha = "=0.9.0"
xshell = "=0.2.7"
