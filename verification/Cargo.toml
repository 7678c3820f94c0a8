[package]
name = "elastic-player"
version = "0.1.0"
edition = "2021"
publish = false

[dependencies]
anyhow = "1"
clap = { version = "=4.6.7", features = ["derive"] }
crossterm = { version = "=0.29.0", features = ["event-stream"] }
dirs = "6"
futures = "0.3"
ratatui = { version = "=0.30.2", default-features = false, features = ["crossterm"] }
rodio = { version = "=0.22.2", default-features = false, features = ["playback", "wav"] }
rubberband = "=0.1.5"
tempfile = "3"
tokio = { version = "=1.54.1", features = ["macros", "rt-multi-thread", "sync", "time"] }
url = "=2.5.8"
which = "8"
yt-dlp = { version = "=2.10.0", default-features = false, features = ["cache-json"] }
