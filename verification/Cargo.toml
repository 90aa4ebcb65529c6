[package]
name = "hallvardns"
version = "0.1.0"
edition = "2021"
publish = false

[dependencies]
embassy-executor = "*"
embassy-net = { version = "*", features = ["udp", "proto-ipv4", "dhcpv4", "medium-ethernet"] }
embassy-time = "*"
esp-alloc = "*"
esp-bootloader-esp-idf = "*"
esp-hal = "*"
esp-println = "*"
esp-radio = "*"
esp-rtos = "*"
static_cell = "*"
