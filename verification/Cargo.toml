[package]
name = "fig2json"
version = "0.1.0"
edition = "2021"
publish = false

[dependencies]
flate2 = "=1.1.10"
zstd = "=0.13.4"
zip = { version = "=0.6.6", default-features = false, features = ["bzip2", "deflate", "time", "zstd"] }
base64 = "=0.21.7"
kiwi-schema = "=0.2.1"
serde_json = "=1.0.154"
clap = { version = "=4.6.7", features = ["derive"] }
anyhow = "=1.0.104"
ctrlc = "=3.5.2"
tiny_http = "=0.12.0"
mime_guess = "=2.0.5"
percent-encoding = "=2.3.2"
