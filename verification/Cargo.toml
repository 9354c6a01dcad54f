[package]
name = "auto_secret"
version = "0.1.0"
edition = "2021"
publish = false

[dependencies]
hex = "=0.4.3"
seahash = "=4.1.0"
ulid = "=1.2.1"
uuid = { version = "=1.29.0", features = ["v4"] }
argwerk = "0.20"
async-trait = "0.1"
color-eyre = "0.6"
futures = "0.3"
k8s-openapi = { version = "0.14", default-features = false, features = ["v1_22"] }
kube = { version = "0.72", default-features = false, features = ["client", "rustls-tls", "runtime", "derive"] }
schemars = "0.8"
serde = { version = "1", features = ["derive"] }
serde_json = "1"
serde_yaml = "0.8"
thiserror = "1"
tokio = { version = "1", features = ["macros", "rt-multi-thread"] }
tracing = "0.1"
tracing-subscriber = { version = "0.3", features = ["env-filter"] }
tracing-tree = "0.2"
