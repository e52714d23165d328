[package]
name = "qctl"
version = "0.4.1"
edition = "2021"
publish = false

[dependencies]
yamlpath = "=0.34.0"
yamlpatch = "=0.13.0"
yaml_serde = "=0.10.7"
serde_yml = "=0.0.13"
serde = { version = "=1.0.229", features = ["derive"] }
serde_json = "=1.0.154"
time = { version = "=0.3.55", features = ["parsing", "formatting", "macros"] }
anyhow = "=1.0.104"
clap = { version = "=4.6.7", features = ["derive"] }
schemars = "=1.2.3"
jsonschema = { version = "=0.60.2", default-features = false }
indoc = "=2.0.8"
