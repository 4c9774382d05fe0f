[package]
name = "sprig_llm_core"
version = "0.1.0"
edition = "2021"
publish = false

[dependencies]
heapless = "=0.8.0"
embedded-graphics = "=0.8.2"
embassy-rp = "=0.2.0"
embassy-executor = "=0.6.3"
embassy-time = "=0.3.2"
embassy-usb = "=0.3.0"
embassy-net = { version = "=0.4.0", features = ["tcp", "dns", "dhcpv4", "proto-ipv4", "medium-ethernet"] }
embedded-io-async = "=0.6.1"
cyw43 = "=0.2.0"
cyw43-pio = "=0.2.0"
reqwless = "=0.12.1"
static_cell = "=2.1.1"
usbd-hid = "=0.8.2"
rand_core = "=0.6.4"
defmt = "=0.3.101"
fixed = "=1.29.0"
pio-proc = "=0.2.2"
pio = "=0.2.1"
