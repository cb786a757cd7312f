[package]
name = "kipp"
version = "0.1.0"
edition = "2021"
publish = false

[dependencies]
anyhow = "*"
chacha20poly1305 = "*"
ciborium = "*"
clap = { version = "*", features = ["derive", "env"] }
hkdf = "*"
jiff = "*"
libc = "*"
rand = "*"
ratatui = { version = "*", default-features = false, features = ["crossterm"] }
russh = "*"
serde = { version = "*", features = ["derive"] }
sha2 = "*"
subtle = "*"
tokio = { version = "*", features = ["io-util", "macros", "net", "rt-multi-thread", "signal", "sync", "time"] }
toml = "*"
unicode-linebreak = "*"
unicode-segmentation = "*"
unicode-width = "*"
zeroize = "*"
zstd = "*"
