[package]
name = "rata_wave"
version = "0.1.0"
edition = "2021"
publish = false

[dependencies]
vcd = "0.7"
ratatui = "0.29"
crossterm = "0.28"
tui-textarea = "0.7"
catppuccin = { version = "2", features = ["ratatui"] }
cli-log = "2"
