[package]
name = "notebook"
version = "0.1.0"
edition = "2021"
publish = false

[dependencies]
crossterm = "0.25"
diesel = { version = "1.4", features = ["sqlite"] }
diesel_migrations = "1.4"
dirs = "3"
edit = "0.1"
rustyline = "9"
shellwords = "1"
string_template = "*"
structopt = "0.3"
tui = { version = "0.19", default-features = false, features = ["crossterm"] }
uuid = { version = "0.8", features = ["v4"] }
