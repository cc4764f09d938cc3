[package]
name = "vellum"
version = "0.1.0"
edition = "2021"
publish = false

[dependencies]
anyhow = "=1.0.104"
cairo-rs = "=0.22.9"
glib = "=0.22.10"
gtk4 = "=0.11.5"
gtk4-layer-shell = "=0.8.1"
image = { version = "=0.25.10", default-features = false, features = ["png", "pnm"] }
ksni = { version = "=0.3.7", features = ["blocking"] }
libc = "=0.2.191"
memmap2 = "=0.9.12"
pango = "=0.22.9"
pangocairo = "=0.22.9"
serde_json = "=1.0.154"
tempfile = "=3.27.0"
ureq = { version = "=3.5.1", features = ["json"] }
wayland-client = "=0.31.15"
wayland-protocols = { version = "=0.32.13", features = ["client", "unstable"] }
wayland-protocols-wlr = { version = "=0.3.12", features = ["client"] }
