[package]
name = "khaos_monkey"
version = "0.1.0"
edition = "2021"
publish = false

[dependencies]
rand = "0.8"
humantime = "2"
kube = { version = "0.87", default-features = false, features = ["client", "rustls-tls"] }
k8s-openapi = { version = "0.20", features = ["v1_28"] }
tokio = { version = "1", features = ["macros", "rt-multi-thread", "time"] }
structopt = "0.3"
log = "0.4"
env_logger = "0.10"
