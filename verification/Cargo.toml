[package]
name = "fluent_diary"
version = "0.1.0"
edition = "2021"
publish = false

[dependencies]
hound = "=3.5.1"
rubato = "=0.15.0"
chrono = "=0.4.45"
uuid = { version = "=1.27.0", features = ["v4"] }
cpal = "=0.18.2"
whisper-rs = "=0.16.0"
