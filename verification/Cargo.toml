[package]
name = "udp_ring_queue"
version = "0.1.0"
edition = "2021"
publish = false

[dependencies]
anyhow = "*"
crossbeam-queue = "*"
libc = "*"
parking_lot = "*"
rand = "*"
serde = { version = "*", features = ["derive"] }
socket2 = { version = "*", features = ["all"] }
tokio = { version = "*", features = ["rt-multi-thread", "macros", "sync", "time"] }
