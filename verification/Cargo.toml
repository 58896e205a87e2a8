[package]
name = "task_diff"
version = "0.1.0"
edition = "2021"
publish = false

[dependencies]
serde_json = { version = "=1.0.154", features = ["preserve_order"] }
unescape = "=0.1.0"
colored = "=3.1.1"
ncurses = "=5.101.0"
