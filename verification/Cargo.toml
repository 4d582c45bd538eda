[package]
name = "framaschedule"
version = "0.3.0"
edition = "2021"
publish = false

[dependencies]
chrono = "=0.4.45"
clap = "=2.34.0"
csv = "=1.4.0"
num_cpus = "=1.17.0"
rand = "=0.8.8"
rocket = { version = "=0.5.2", features = ["json"] }
rocket_cors = "=0.6.0"
scan_fmt = "0.2"
scoped_threadpool = "=0.1.9"
serde = { version = "=1.0.229", features = ["derive"] }
simple-error = "=0.2.3"
