[package]
name = "lib_tower_defense"
version = "0.1.0"
edition = "2021"
publish = false

[dependencies]
once_cell = "=1.21.4"
device_query = "=4.0.1"
terminal_size = "=0.4.4"

[dev-dependencies]
rmp = "=0.8.15"
rmp-serde = "=1.3.1"
serde = "=1.0.229"
