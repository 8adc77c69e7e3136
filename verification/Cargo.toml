[package]
name = "polyglot_pdf"
version = "0.1.0"
edition = "2021"
publish = false

[dependencies]
rand = "0.9"
ttf-parser = "*"
lopdf = { version = "*", default-features = false }
serde = { version = "1", features = ["derive"] }
toml = "*"
cairo-rs = { version = "*", features = ["pdf"] }
pango = "*"
pango-sys = "*"
pangocairo = "*"
rustybuzz = "*"
