[package]
name = "signal_pipeline"
version = "0.1.0"
edition = "2021"
publish = false

[dependencies]
heapless = "=0.8.0"
embassy-sync = "=0.8.0"
fastrand = { version = "=2.5.0", default-features = false }
libm = "=0.2.16"
embassy-executor = { version = "=0.9.1", features = ["arch-std", "executor-thread"] }
embassy-time = "=0.5.1"
embassy-stm32 = { version = "=0.6.0", features = ["stm32f429zi", "time-driver-any"] }
defmt = "=1.2.0"
defmt-rtt = "=1.3.1"
panic-probe = { version = "=1.0.0", features = ["print-defmt"] }
