[package]
name = "m3"
version = "0.1.0"
edition = "2021"
publish = false

[dependencies]
slab = "0.4"
libc = "0.2"
kdl = "4"
fuser = { version = "0.14", default-features = false }
ctrlc = "3"
directories = "5"
once_cell = "1"
color-eyre = "0.6"
tracing = "0.1"
tracing-appender = "0.2"
tracing-subscriber = "0.3"
