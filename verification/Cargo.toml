[package]
name = "ambilight"
version = "0.1.0"
edition = "2021"
publish = false

[dependencies]
image = { version = "=0.22.5", default-features = false }
rayon = "=1.12.0"
smart-leds = "=0.2.0"
apa102-spi = "=0.2.1"
linux-embedded-hal = "=0.3.2"
videocore = "=0.1.3"
