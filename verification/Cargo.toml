[package]
name = "babu"
version = "0.1.0"
edition = "2021"
publish = false

[dependencies]
seqdiff = "*"
sha2 = "*"
serde = { version = "*", features = ["derive"] }
serde_yaml = "*"
toml = "*"
log = "*"
mlua = { version = "*", features = ["lua54", "vendored"] }
sysinfo = "*"
peak_alloc = "*"
once_cell = "*"
