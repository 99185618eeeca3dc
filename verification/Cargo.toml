[package]
name = "studio_core"
version = "0.1.0"
edition = "2021"
publish = false

[dependencies]
anyhow = "=1.0.104"
serde = { version = "=1.0.229", features = ["derive"] }
serde_json = "=1.0.154"
serde_yaml_ng = "=0.10.0"
sha2 = "=0.10.9"
versatiles_core = { version = "=4.11.0", default-features = false }
versatiles_container = { version = "=4.11.0", default-features = false }
versatiles_pipeline = { version = "=4.11.0", default-features = false, features = ["codegen"] }
versatiles_derive = { version = "=4.11.0", default-features = false }
versatiles_geometry = { version = "=4.11.0", default-features = false }
tokio = { version = "=1.54.1", features = ["rt-multi-thread", "macros"] }
tar = "=0.4.46"
flate2 = "=1.1.10"
