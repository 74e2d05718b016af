[package]
name = "space_tts"
version = "0.1.0"
edition = "2021"
publish = false

[dependencies]
anyhow = "1"
audioadapter-buffers = "*"
cpal = "*"
crossbeam-channel = "0.5"
crossterm = "*"
ctrlc = "3"
evdev = "*"
ratatui = "*"
rubato = "*"
webrtc-vad = "0.4"
whisper-rs = "*"
