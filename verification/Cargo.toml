[package]
name = "entity_sync"
version = "0.1.0"
edition = "2021"
publish = false

[dependencies]
find_folder = "=0.3.0"
legion = "=0.2.4"
legion-sync = "=0.1.0"
log = "=0.4.34"
lz4-compress = "=0.1.1"
net-sync = "=0.0.1"
sdl2 = { version = "=0.38.0", features = ["ttf"] }
serde = { version = "=1.0.229", features = ["derive"] }
simple_logger = "=5.2.0"
