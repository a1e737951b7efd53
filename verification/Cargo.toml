[package]
name = "hours"
version = "0.1.0"
edition = "2021"
publish = false

[dependencies]
exitcode = "1"
exitfailure = "0.5"
log = "0.4"
simple-error = "0.2"
simple_logger = "*"
structopt = "0.3"
