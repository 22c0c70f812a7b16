[package]
name = "animessage"
version = "0.1.0"
edition = "2021"
publish = false

[dependencies]
anyhow = "=1.0.104"
console = "=0.16.6"
crossterm = "=0.29.0"
ctrlc = "=3.5.2"
device_query = "=4.0.1"
inquire = "=0.9.4"
log = "=0.4.34"
simple_logger = "=5.2.0"
structopt = "=0.3.26"
term-table = "=1.4.0"
viuer = { version = "=0.11.0", features = ["print-file"] }
webbrowser = "=1.2.4"
