[package]
name = "ink_md"
version = "0.1.0"
edition = "2021"
publish = false

[dependencies]
unicode-segmentation = "=1.13.3"
unicode-width = "=0.2.0"
base64 = "=0.22.1"
flate2 = "=1.1.10"
anyhow = "=1.0.104"
clap = { version = "=4.6.7", features = ["derive"] }
crossterm = "=0.28.1"
dirs = "=6.0.0"
image = { version = "=0.25.10", default-features = false, features = ["png"] }
notify = "=8.2.1"
open = "=5.4.5"
ratatui = "=0.29.0"
reqwest = { version = "=0.12.28", default-features = false, features = ["blocking"] }
resvg = "=0.45.1"
serde = { version = "=1.0.229", features = ["derive"] }
similar = "=2.7.0"
toml = "=0.8.23"
toml_edit = "=0.22.27"
comrak = { version = "*", default-features = false }
syntect = { version = "5", default-features = false, features = ["parsing", "default-syntaxes", "default-themes", "regex-fancy"] }
ratatui-image = { version = "*", default-features = false, features = ["crossterm"] }
