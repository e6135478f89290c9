[package]
name = "blind_typing"
version = "0.1.0"
edition = "2021"
publish = false

[dependencies]
ratatui = "=0.26.3"
crossterm = "=0.27.0"
tokio = { version = "=1.53.2", features = ["macros", "rt-multi-thread"] }
rand = "=0.8.8"
chrono = "=0.4.45"
chatgpt_rs = "*"
