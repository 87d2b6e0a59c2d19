[package]
name = "skyway"
version = "0.1.0"
edition = "2021"
publish = false

[dependencies]
cel-interpreter = "*"
clap = { version = "*", features = ["derive"] }
serde = { version = "*", features = ["derive"] }
serde_json = "*"
serde-aux = "*"
quick-xml = { version = "*", features = ["serialize"] }
osmpbf = "*"
