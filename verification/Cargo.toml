[package]
name = "omaread"
version = "0.1.0"
edition = "2021"
publish = false

[dependencies]
hyphenation = { version = "=0.8.4", features = ["embed_all"] }
sha2 = "=0.10.9"
image = { version = "=0.25.6", default-features = false, features = ["jpeg", "png"] }
rusqlite = { version = "=0.37.0", default-features = false, features = ["bundled"] }
rbook = "=0.6.12"
blitz-dom = { version = "=0.2.4", default-features = false }
blitz-html = { version = "=0.2.0", default-features = false }
blitz-paint = { version = "=0.2.1", default-features = false }
blitz-traits = { version = "=0.2.0", default-features = false }
anyrender = { version = "=0.6.2", default-features = false }
anyrender_vello = { version = "=0.6.2", default-features = false }
parley = { version = "=0.6.0", default-features = false, features = ["std"] }
peniko = "=0.5.0"
kurbo = "=0.12.0"
winit = { version = "=0.30.13", default-features = false, features = ["x11", "rwh_06"] }
