[package]
name = "enigma_firmware"
version = "0.1.0"
edition = "2021"
publish = false

[dependencies]
micromath = "=2.1.0"
num-complex = { version = "=0.4.6", default-features = false }
defmt = "=0.3.101"
fugit = "=0.3.9"
nb = "=1.1.0"
stm32h7xx-hal = { version = "=0.16.0", features = ["stm32h750v", "rt"] }
daisy = { version = "=0.11.0", features = ["seed_1_1"] }
rtic = { version = "=2.4.0", features = ["thumbv7-backend"] }
rtic-monotonics = { version = "=2.2.1", features = ["cortex-m-systick"] }
rtic-sync = "=1.6.0"
