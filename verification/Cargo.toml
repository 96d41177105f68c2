[package]
name = "bookokrat"
version = "0.1.0"
edition = "2021"
publish = false

[dependencies]
roxmltree = "*"
regex = "*"
chrono = "*"
textwrap = "*"
md5 = "*"
once_cell = "*"
serde = { version = "1", features = ["derive"] }
serde_yaml = "*"
anyhow = "*"
log = "*"
simplelog = "*"
ratatui = "*"
crossterm = "*"
vt100 = "*"
codepage-437 = "*"
epub = "*"
image = { version = "*", default-features = false, features = ["png", "jpeg"] }
tui-textarea = "*"
