[package]
name = "o4core"
version = "0.1.0"
edition = "2021"
publish = false

[dependencies]
serde = { version = "1", features = ["derive"] }
serde_json = "1"
thiserror = "*"
clap = { version = "4", features = ["derive"] }
num-complex = "*"
nalgebra = "*"
rayon = "*"
telemetry-parser = "*"
opencv = "*"
