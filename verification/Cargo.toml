[package]
name = "pico_proxy"
version = "0.1.0"
edition = "2021"
publish = false

[dependencies]
cyw43 = "0.7"
cyw43-pio = "*"
embassy-executor = "0.10"
embassy-futures = "*"
embassy-net = { version = "0.9", features = ["proto-ipv4", "tcp", "udp", "dhcpv4", "dns", "medium-ethernet"] }
embassy-rp = { version = "0.10", features = ["rp235xa", "time-driver", "critical-section-impl", "binary-info"] }
embassy-sync = "*"
embassy-time = "*"
embedded-io-async = "*"
heapless = "*"
panic-halt = "*"
static_cell = "*"
