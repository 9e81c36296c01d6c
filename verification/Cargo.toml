[package]
name = "atom01_fw"
version = "0.1.0"
edition = "2021"
publish = false

[dependencies]
heapless = "=0.8.0"
defmt = "1.0"
defmt-rtt = "1.0"
panic-probe = { version = "1.0", features = ["print-defmt"] }
embassy-executor = { version = "0.9", features = ["arch-std", "executor-thread"] }
embassy-futures = "0.1"
embassy-time = { version = "0.5", features = ["defmt", "tick-hz-32_768"] }
embassy-stm32 = { version = "0.4", features = ["defmt", "stm32h743vi", "time-driver-any", "exti", "unstable-pac"] }
embassy-usb = { version = "0.5", features = ["defmt"] }
