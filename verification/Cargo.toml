[package]
name = "kithara"
version = "0.1.0"
edition = "2021"
publish = false

[dependencies]
aes = "0.8"
axum = "0.8"
cbc = { version = "0.1", features = ["alloc", "block-padding"] }
ffmpeg-next = "7"
futures = "0.3"
hex = "0.4"
num-traits = "0.2"
reqwest = { version = "0.12", default-features = false }
ringbuf = "0.4"
serde = { version = "1", features = ["derive"] }
serde_json = "1"
sha2 = "0.10"
tempfile = "3"
thiserror = "2"
tokio = { version = "1", features = ["macros", "net", "rt-multi-thread"] }
tower-http = { version = "0.6", features = ["cors"] }
tracing = "0.1"
url = "2"
uuid = { version = "1", features = ["v4", "v5"] }
