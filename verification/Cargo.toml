[package]
name = "ddr_chart_tools"
version = "0.1.0"
edition = "2021"
publish = false

[dependencies]
clap = { version = "4", features = ["derive"] }
env_logger = "0.11"
lewton = "0.10"
log = "0.4"
thiserror = "2"
vorbis_rs = "0.5"
