[package]
name = "jiggler"
version = "0.1.0"
edition = "2021"
publish = false

[dependencies]
heapless = "=0.8.0"
embassy-sync = "=0.8.0"
embassy-futures = "=0.1.2"
embassy-time = "=0.5.1"
embassy-executor = "=0.9.1"
embassy-usb = { version = "=0.6.0", features = ["defmt"] }
usbd-hid = "=0.10.2"
defmt = "=1.2.0"
panic-probe = { version = "=1.0.0", features = ["print-defmt"] }
