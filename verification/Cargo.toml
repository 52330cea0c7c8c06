[package]
name = "pdf_inspector"
version = "0.1.0"
edition = "2021"
publish = false

[dependencies]
regex = "=1.13.1"
lopdf = "=0.46.0"
image = { version = "=0.25.10", default-features = false }
log = "0.4"
env_logger = "=0.11.11"
rayon = "=1.12.0"
thiserror = "2"
ureq = "=3.5.1"
oar-ocr = { version = "=0.9.2", default-features = false }
ort = { version = ">=2.0.0-rc.0", default-features = false, features = ["load-dynamic"] }

[dev-dependencies]
ttf-parser = "=0.25.1"
