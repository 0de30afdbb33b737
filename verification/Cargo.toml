[package]
name = "diode"
version = "0.1.0"
edition = "2021"
publish = false

[dependencies]
clap = "=4.6.7"
crossbeam-channel = "=0.5.17"
libc = "=0.2.191"
log = "=0.4.34"
raptorq = "=1.8.1"
simple_logger = "=4.3.3"

[dev-dependencies]
bincode = "=1.3.3"
