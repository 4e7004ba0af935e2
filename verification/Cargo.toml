[package]
name = "dinero"
version = "0.1.0"
edition = "2021"
publish = false

[dependencies]
num = "0.4"
chrono = "0.4"
regex = "1"
two_timer = "2"
structopt = "0.3"
colored = "2"
shellexpand = "2"
shlex = "1"
rustyline = "9"
terminal_size = "0.1"
prettytable-rs = "0.10"
glob = "0.3"
