[package]
name = "anglican_calendar"
version = "0.1.0"
edition = "2021"
publish = false

[dependencies]
chrono = "0.4"
ron = "*"
serde = "1"
serde_derive = "1"
icalendar = "*"
structopt = "0.3"
