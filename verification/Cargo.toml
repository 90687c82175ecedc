[package]
name = "audiobook-studio"
version = "0.1.0"
edition = "2021"
publish = false

[dependencies]
base64 = "=0.22.1"
regex = "=1.13.1"
unicode-normalization = "=0.1.26"
anyhow = "1"
clap = { version = "4", features = ["derive"] }
egui = { version = "0.31", default-features = false, features = ["default_fonts"] }
egui-phosphor = "0.9"
hound = "3"
image = { version = "0.25", default-features = false, features = ["png", "jpeg"] }
lopdf = { version = "=0.42.0", default-features = false }
pdf-extract = "=0.12.1"
pdfium-render = "=0.8.37"
reqwest = { version = "0.12", default-features = false, features = ["json"] }
rig-core = { version = "0.35", default-features = false }
serde = { version = "1", features = ["derive"] }
serde_json = "1"
thiserror = "2"
tokio = { version = "1", features = ["rt-multi-thread", "time", "macros"] }
