[package]
name = "fensor"
version = "0.1.0"
edition = "2021"
publish = false

[dependencies]
b-table = { version = "=0.4.0", features = ["stream"] }
destream = "=0.10.1"
freqfs = { version = "=0.12.1", features = ["stream"] }
futures = "=0.3.34"
ha-ndarray = "=0.5.0"
num_cpus = "=1.17.0"
number-general = "=0.14.0"
rand = "=0.10.3"
safecast = "=0.2.3"
smallvec = "=1.16.4"
tokio = { version = "=1.54.1", features = ["fs", "rt", "macros"] }
