[package]
name = "procon2022_comp_2nd"
version = "0.1.0"
edition = "2021"
publish = false

[dependencies]
anyhow = "1"
bytemuck = "1"
cast = "0.3"
dotenv = "0.15"
env_logger = "0.10"
log = "0.4"
num = "0.4"
reqwest = { version = "0.11", default-features = false, features = ["blocking", "json"] }
serde = { version = "1", features = ["derive"] }
serde_json = "1"
serde_yaml = "0.9"
thiserror = "1"
wav = "1"
wide = "0.7"
