[package]
name = "jj_ai"
version = "0.1.0"
edition = "2021"
publish = false

[dependencies]
chrono = "=0.4.45"
clap = { version = "=4.6.7", features = ["derive"] }
futures = "=0.3.34"
glob = "=0.3.4"
jj-lib = { version = "=0.43.0", default-features = false }
orpheus = "=0.1.3"
tempfile = "=3.27.0"
thiserror = "=2.0.21"
tokio = { version = "=1.53.2", features = ["rt", "io-util", "macros"] }
